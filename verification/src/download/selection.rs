//! Which files of a repository are downloaded, and in what order.
use crate::error::{message_error, AppResult, ErrorView};
use crate::hub::listing;
use crate::hub::{TreeEntry, TreeEntryView};
use crate::patterns;
use crate::patterns::{PatternSet, PatternSetView};
use crate::text;
use crate::text::{escape_owned, is_ordered};
use vstd::prelude::*;

verus! {

broadcast use vstd::seq_lib::group_to_multiset_ensures;

/// The files among `entries` that patterns select.
pub open spec fn selected(entries: Seq<TreeEntry>, patterns: PatternSetView) -> Seq<TreeEntry>
    decreases entries.len(),
{
    if entries.len() == 0 {
        Seq::empty()
    } else {
        let before = selected(entries.drop_last(), patterns);
        if entries.last()@.is_file() && patterns.selects(entries.last()@.path) {
            before.push(entries.last())
        } else {
            before
        }
    }
}

/// Whether entries stand in the order of their paths.
pub open spec fn sorted(entries: Seq<TreeEntry>) -> bool {
    forall|i: int, j: int|
        0 <= i <= j < entries.len() ==> text::ordered(
            (#[trigger] entries[i]).path@,
            (#[trigger] entries[j]).path@,
        )
}

/// The files among `entries` whose verdict is set.
pub open spec fn picked(entries: Seq<TreeEntry>, verdicts: Seq<bool>) -> Seq<TreeEntry>
    decreases entries.len(),
{
    if entries.len() == 0 {
        Seq::empty()
    } else {
        let before = picked(entries.drop_last(), verdicts.drop_last());
        if entries.last()@.is_file() && verdicts.last() {
            before.push(entries.last())
        } else {
            before
        }
    }
}

/// Whether `verdicts` can be the answers to whether patterns select the entries.
pub open spec fn allowed(
    entries: Seq<TreeEntry>,
    patterns: PatternSetView,
    verdicts: Seq<bool>,
) -> bool {
    &&& verdicts.len() == entries.len()
    &&& forall|i: int|
        0 <= i < entries.len() ==> patterns.allows((#[trigger] entries[i]).path@, verdicts[i])
}

/// Whether patterns select each entry or not alike on every machine.
pub open spec fn decided(entries: Seq<TreeEntry>, patterns: PatternSetView) -> bool {
    forall|i: int| 0 <= i < entries.len() ==> patterns.decides((#[trigger] entries[i]).path@)
}

/// The entries of a listing are selected or not alike on every machine.
pub proof fn lemma_listed_paths_are_decided(entries: Seq<TreeEntry>, patterns: PatternSetView)
    requires
        forall|i: int|
            0 <= i < entries.len() ==> listing::entry_refusal((#[trigger] entries[i])@) is None,
    ensures
        decided(entries, patterns),
{
    assert forall|i: int| 0 <= i < entries.len() implies patterns.decides(
        (#[trigger] entries[i]).path@,
    ) by {
        assert(listing::entry_refusal(entries[i]@) is None);
    }
}

/// Where the machine does not matter, each verdict says whether the entry is selected.
pub(crate) proof fn lemma_decided_verdicts(
    entries: Seq<TreeEntry>,
    patterns: PatternSetView,
    verdicts: Seq<bool>,
)
    requires
        allowed(entries, patterns, verdicts),
        decided(entries, patterns),
    ensures
        forall|i: int|
            0 <= i < entries.len() ==> verdicts[i] == patterns.selects(
                (#[trigger] entries[i]).path@,
            ),
{
    assert forall|i: int| 0 <= i < entries.len() implies verdicts[i] == patterns.selects(
        (#[trigger] entries[i]).path@,
    ) by {
        assert(patterns.decides(entries[i].path@));
        assert(patterns.allows(entries[i].path@, verdicts[i]));
        patterns::lemma_selection_is_bounded(patterns, entries[i].path@);
    }
}

proof fn lemma_picked_is_selected(
    entries: Seq<TreeEntry>,
    patterns: PatternSetView,
    verdicts: Seq<bool>,
)
    requires
        verdicts.len() == entries.len(),
        forall|i: int|
            0 <= i < entries.len() ==> verdicts[i] == patterns.selects(
                (#[trigger] entries[i]).path@,
            ),
    ensures
        picked(entries, verdicts) == selected(entries, patterns),
    decreases entries.len(),
{
    if entries.len() > 0 {
        let front = entries.drop_last();
        assert(forall|i: int| 0 <= i < front.len() ==> #[trigger] front[i] == entries[i]);
        lemma_picked_is_selected(front, patterns, verdicts.drop_last());
        assert(verdicts[entries.len() - 1] == patterns.selects(entries[entries.len() - 1].path@));
    }
}

/// What is picked are the listed files whose verdict is set, and no others.
pub proof fn lemma_picked_files_are_listed(
    entries: Seq<TreeEntry>,
    verdicts: Seq<bool>,
    entry: TreeEntry,
)
    requires
        verdicts.len() == entries.len(),
    ensures
        picked(entries, verdicts).contains(entry) <==> exists|i: int|
            0 <= i < entries.len() && #[trigger] entries[i] == entry && entry@.is_file()
                && verdicts[i],
    decreases entries.len(),
{
    if entries.len() > 0 {
        let n = entries.len() - 1;
        let front = entries.drop_last();
        let before = picked(front, verdicts.drop_last());
        let all = picked(entries, verdicts);
        lemma_picked_files_are_listed(front, verdicts.drop_last(), entry);
        if before.contains(entry) {
            let i = choose|i: int|
                0 <= i < front.len() && #[trigger] front[i] == entry && entry@.is_file()
                    && verdicts.drop_last()[i];
            assert(entries[i] == entry);
            let k = choose|k: int| 0 <= k < before.len() && before[k] == entry;
            assert(all[k] == entry);
        }
        if all.contains(entry) && !before.contains(entry) {
            let k = choose|k: int| 0 <= k < all.len() && all[k] == entry;
            assert(k == before.len());
            assert(entries[n] == entry);
        }
        if exists|i: int|
            0 <= i < entries.len() && #[trigger] entries[i] == entry && entry@.is_file()
                && verdicts[i] {
            let i = choose|i: int|
                0 <= i < entries.len() && #[trigger] entries[i] == entry && entry@.is_file()
                && verdicts[i];
            if i < n {
                assert(front[i] == entry);
            } else {
                assert(all[before.len() as int] == entry);
            }
        }
    }
}

/// The selected files in the order of their paths. There must be one. Where it depends on
/// the machine whether a file is selected, either may be.
pub fn select_files(entries: &Vec<TreeEntry>, patterns: &PatternSet) -> (res: AppResult<
    Vec<TreeEntry>,
>)
    ensures
        match res {
            Ok(files) => files@.len() > 0 && sorted(files@),
            Err(error) => error@ == ErrorView::Message("download patterns matched no files"@),
        },
        exists|verdicts: Seq<bool>|
            allowed(entries@, patterns@, verdicts) && match res {
                Ok(files) => files@.to_multiset() == (#[trigger] picked(
                    entries@,
                    verdicts,
                )).to_multiset(),
                Err(_) => picked(entries@, verdicts).len() == 0,
            },
        decided(entries@, patterns@) ==> match res {
            Ok(files) => files@.to_multiset() == selected(entries@, patterns@).to_multiset(),
            Err(_) => selected(entries@, patterns@).len() == 0,
        },
{
    let mut files: Vec<TreeEntry> = Vec::new();
    let ghost mut verdicts: Seq<bool> = Seq::empty();
    let mut i: usize = 0;
    while i < entries.len()
        invariant
            i <= entries@.len(),
            allowed(entries@.take(i as int), patterns@, verdicts),
            files@ == picked(entries@.take(i as int), verdicts),
        decreases entries@.len() - i,
    {
        let ghost before = verdicts;
        let is_file = entries[i].is_file();
        let verdict = patterns.selects(&entries[i].path);
        if is_file && verdict {
            files.push(entries[i].clone());
        }
        proof {
            verdicts = verdicts.push(verdict);
            let next = entries@.take(i + 1);
            assert(next.drop_last() =~= entries@.take(i as int));
            assert(next.last() == entries@[i as int]);
            assert(verdicts.drop_last() =~= before);
            assert forall|k: int| 0 <= k < next.len() implies patterns@.allows(
                (#[trigger] next[k]).path@,
                verdicts[k],
            ) by {
                if k < i {
                    assert(next[k] == entries@.take(i as int)[k]);
                }
            }
        }
        i = i + 1;
    }
    proof {
        assert(entries@.take(i as int) =~= entries@);
        assert(picked(entries@, verdicts) == files@);
        if decided(entries@, patterns@) {
            lemma_decided_verdicts(entries@, patterns@, verdicts);
            lemma_picked_is_selected(entries@, patterns@, verdicts);
        }
    }
    if files.len() == 0 {
        return Err(message_error("download patterns matched no files"));
    }
    let ghost unsorted = files@;
    let files = sort_by_path(files);
    proof {
        assert(files@.len() == unsorted.len());
        assert(picked(entries@, verdicts) == unsorted);
    }
    Ok(files)
}

/// Sorts entries by their paths.
pub fn sort_by_path(entries: Vec<TreeEntry>) -> (res: Vec<TreeEntry>)
    ensures
        sorted(res@),
        res@.to_multiset() == entries@.to_multiset(),
        res@.len() == entries@.len(),
    decreases entries@.len(),
{
    if entries.len() < 2 {
        proof {
            assert forall|i: int, j: int| 0 <= i <= j < entries@.len() implies text::ordered(
                (#[trigger] entries@[i]).path@,
                (#[trigger] entries@[j]).path@,
            ) by {
                text::lemma_ordered(entries@[0].path@, entries@[0].path@, entries@[0].path@);
            }
        }
        return entries;
    }
    let ghost all = entries@;
    let half = entries.len() / 2;
    let mut left = entries;
    let mut right: Vec<TreeEntry> = Vec::new();
    while left.len() > half
        invariant
            half <= left@.len(),
            left@.len() + right@.len() == all.len(),
            half < all.len(),
            left@.to_multiset().add(right@.to_multiset()) == all.to_multiset(),
        decreases left@.len(),
    {
        let ghost before = left@;
        let entry = left.pop().unwrap();
        proof {
            assert(before =~= left@.push(entry));
        }
        let ghost others = right@;
        right.push(entry);
        proof {
            assert(left@.to_multiset().add(right@.to_multiset()) =~= before.to_multiset().add(
                others.to_multiset(),
            ));
        }
    }
    let left = sort_by_path(left);
    let right = sort_by_path(right);
    let res = merge(left, right);
    proof {
        assert(res@.len() == all.len());
    }
    res
}

/// Whether all of `below` stand before all of `above`.
spec fn all_before(below: Seq<TreeEntry>, above: Seq<TreeEntry>) -> bool {
    forall|i: int, j: int|
        0 <= i < below.len() && 0 <= j < above.len() ==> text::ordered(
            (#[trigger] below[i]).path@,
            (#[trigger] above[j]).path@,
        )
}

/// Whether entries stand in the reverse order of their paths.
spec fn descending(entries: Seq<TreeEntry>) -> bool {
    forall|i: int, j: int|
        0 <= i <= j < entries.len() ==> text::ordered(
            (#[trigger] entries[j]).path@,
            (#[trigger] entries[i]).path@,
        )
}

proof fn lemma_pushed(taken: Seq<TreeEntry>, rest: Seq<TreeEntry>, other: Seq<TreeEntry>)
    requires
        rest.len() > 0,
        sorted(rest),
        descending(taken),
        all_before(rest, taken),
        all_before(other, taken),
        forall|i: int|
            0 <= i < other.len() ==> text::ordered(
                (#[trigger] other[i]).path@,
                rest.last().path@,
            ),
    ensures
        descending(taken.push(rest.last())),
        all_before(rest.drop_last(), taken.push(rest.last())),
        all_before(other, taken.push(rest.last())),
        sorted(rest.drop_last()),
{
    let more = taken.push(rest.last());
    let last = rest.last();
    text::lemma_ordered(last.path@, last.path@, last.path@);
    assert forall|i: int, j: int| 0 <= i <= j < more.len() implies text::ordered(
        (#[trigger] more[j]).path@,
        (#[trigger] more[i]).path@,
    ) by {
        if j == taken.len() && i < taken.len() {
            assert(text::ordered(rest[rest.len() - 1].path@, taken[i].path@));
        }
    }
    assert forall|i: int, j: int|
        0 <= i < rest.drop_last().len() && 0 <= j < more.len() implies text::ordered(
        (#[trigger] rest.drop_last()[i]).path@,
        (#[trigger] more[j]).path@,
    ) by {
        if j < taken.len() {
            assert(text::ordered(rest[i].path@, taken[j].path@));
        } else {
            assert(text::ordered(rest[i].path@, rest[rest.len() - 1].path@));
        }
    }
    assert forall|i: int, j: int|
        0 <= i < other.len() && 0 <= j < more.len() implies text::ordered(
        (#[trigger] other[i]).path@,
        (#[trigger] more[j]).path@,
    ) by {
        if j < taken.len() {
            assert(text::ordered(other[i].path@, taken[j].path@));
        }
    }
    assert forall|i: int, j: int|
        0 <= i <= j < rest.drop_last().len() implies text::ordered(
        (#[trigger] rest.drop_last()[i]).path@,
        (#[trigger] rest.drop_last()[j]).path@,
    ) by {
        assert(text::ordered(rest[i].path@, rest[j].path@));
    }
}

/// Merges two sorted lists.
fn merge(left: Vec<TreeEntry>, right: Vec<TreeEntry>) -> (res: Vec<TreeEntry>)
    requires
        sorted(left@),
        sorted(right@),
    ensures
        sorted(res@),
        res@.to_multiset() == left@.to_multiset().add(right@.to_multiset()),
        res@.len() == left@.len() + right@.len(),
{
    let ghost all = left@.to_multiset().add(right@.to_multiset());
    let ghost total = left@.len() + right@.len();
    let mut left = left;
    let mut right = right;
    let mut taken: Vec<TreeEntry> = Vec::new();
    proof {
        assert(taken@.to_multiset().add(left@.to_multiset().add(right@.to_multiset())) =~= all);
    }
    while left.len() > 0 || right.len() > 0
        invariant
            sorted(left@),
            sorted(right@),
            descending(taken@),
            all_before(left@, taken@),
            all_before(right@, taken@),
            taken@.len() + left@.len() + right@.len() == total,
            taken@.to_multiset().add(left@.to_multiset().add(right@.to_multiset())) == all,
        decreases left@.len() + right@.len(),
    {
        let from_left = if left.len() == 0 {
            false
        } else if right.len() == 0 {
            true
        } else {
            is_ordered(&right[right.len() - 1].path, &left[left.len() - 1].path)
        };
        let ghost old_left = left@;
        let ghost old_right = right@;
        let ghost old_taken = taken@;
        if from_left {
            proof {
                assert forall|i: int| 0 <= i < right@.len() implies text::ordered(
                    (#[trigger] right@[i]).path@,
                    left@.last().path@,
                ) by {
                    text::lemma_ordered(
                        right@[i].path@,
                        right@[right@.len() - 1].path@,
                        left@.last().path@,
                    );
                }
                lemma_pushed(taken@, left@, right@);
            }
            let entry = left.pop().unwrap();
            taken.push(entry);
            proof {
                assert(old_left =~= left@.push(entry));
                assert(left@ =~= old_left.drop_last());
            }
        } else {
            proof {
                assert forall|i: int| 0 <= i < left@.len() implies text::ordered(
                    (#[trigger] left@[i]).path@,
                    right@.last().path@,
                ) by {
                    text::lemma_ordered(
                        left@[left@.len() - 1].path@,
                        right@.last().path@,
                        right@.last().path@,
                    );
                    text::lemma_ordered(
                        left@[i].path@,
                        left@[left@.len() - 1].path@,
                        right@.last().path@,
                    );
                }
                lemma_pushed(taken@, right@, left@);
            }
            let entry = right.pop().unwrap();
            taken.push(entry);
            proof {
                assert(old_right =~= right@.push(entry));
                assert(right@ =~= old_right.drop_last());
            }
        }
        proof {
            assert(taken@.to_multiset().add(left@.to_multiset().add(right@.to_multiset()))
                =~= old_taken.to_multiset().add(
                old_left.to_multiset().add(old_right.to_multiset()),
            ));
        }
    }
    proof {
        assert(left@ =~= Seq::empty());
        assert(right@ =~= Seq::empty());
        assert(taken@.to_multiset() =~= all);
    }
    reversed(taken)
}

fn reversed(entries: Vec<TreeEntry>) -> (res: Vec<TreeEntry>)
    requires
        descending(entries@),
    ensures
        sorted(res@),
        res@.to_multiset() == entries@.to_multiset(),
        res@.len() == entries@.len(),
{
    let ghost all = entries@;
    let mut rest = entries;
    let mut out: Vec<TreeEntry> = Vec::new();
    proof {
        assert(rest@ =~= all.take(rest@.len() as int));
        assert(out@.to_multiset().add(rest@.to_multiset()) =~= all.to_multiset());
    }
    while rest.len() > 0
        invariant
            rest@.len() <= all.len(),
            rest@ == all.take(rest@.len() as int),
            out@.len() == all.len() - rest@.len(),
            forall|i: int| 0 <= i < out@.len() ==> #[trigger] out@[i] == all[all.len() - 1 - i],
            out@.to_multiset().add(rest@.to_multiset()) == all.to_multiset(),
        decreases rest@.len(),
    {
        let ghost before = rest@;
        let ghost done = out@;
        let entry = rest.pop().unwrap();
        out.push(entry);
        proof {
            assert(before =~= rest@.push(entry));
            assert(rest@ =~= all.take(rest@.len() as int));
            assert(out@.to_multiset().add(rest@.to_multiset()) =~= done.to_multiset().add(
                before.to_multiset(),
            ));
        }
    }
    proof {
        assert(rest@ =~= Seq::empty());
        assert(out@.to_multiset() =~= all.to_multiset());
        assert forall|i: int, j: int| 0 <= i <= j < out@.len() implies text::ordered(
            (#[trigger] out@[i]).path@,
            (#[trigger] out@[j]).path@,
        ) by {
            assert(text::ordered(all[all.len() - 1 - i].path@, all[all.len() - 1 - j].path@));
        }
    }
    out
}

/// Accepts a number of simultaneous transfers.
pub fn check_jobs(jobs: usize) -> (res: AppResult<()>)
    ensures
        match res {
            Ok(()) => jobs > 0,
            Err(error) => jobs == 0 && error@ == ErrorView::Message(
                "jobs must be greater than zero"@,
            ),
        },
{
    if jobs == 0 {
        Err(message_error("jobs must be greater than zero"))
    } else {
        Ok(())
    }
}

// ---------------------------------------------------------------------------
// What is said of the selected files
// ---------------------------------------------------------------------------

/// One line for each path, with control characters escaped.
pub open spec fn path_lines(files: Seq<TreeEntryView>) -> Seq<char>
    decreases files.len(),
{
    if files.len() == 0 {
        Seq::empty()
    } else {
        path_lines(files.drop_last()) + text::escaped(files.last().path) + "\n"@
    }
}

/// What a dry run prints.
pub fn dry_run_text(files: &Vec<TreeEntry>) -> (res: String)
    ensures
        res@ == path_lines(listing::entry_views(files@)),
{
    let ghost all = listing::entry_views(files@);
    let mut out = String::new();
    let mut i: usize = 0;
    while i < files.len()
        invariant
            i <= files@.len(),
            all == listing::entry_views(files@),
            out@ == path_lines(all.take(i as int)),
        decreases files@.len() - i,
    {
        proof {
            assert(all.take(i + 1).drop_last() =~= all.take(i as int));
            assert(all.take(i + 1).last() == files@[i as int]@);
        }
        out.append(&escape_owned(&files[i].path));
        out.append("\n");
        i = i + 1;
    }
    proof {
        assert(all.take(i as int) =~= all);
    }
    out
}

/// The bytes of all files together.
pub open spec fn total_size(files: Seq<TreeEntryView>) -> nat
    decreases files.len(),
{
    if files.len() == 0 {
        0
    } else {
        total_size(files.drop_last()) + files.last().size as nat
    }
}

proof fn lemma_total_size_grows(files: Seq<TreeEntryView>, i: int)
    requires
        0 <= i <= files.len(),
    ensures
        total_size(files.take(i)) <= total_size(files),
    decreases files.len(),
{
    if i == files.len() {
        assert(files.take(i) =~= files);
    } else {
        assert(files.drop_last().take(i) =~= files.take(i));
        lemma_total_size_grows(files.drop_last(), i);
    }
}

/// The bytes of all files together, as far as they can be counted.
pub fn total_bytes(files: &Vec<TreeEntry>) -> (res: AppResult<u64>)
    ensures
        match res {
            Ok(total) => total == total_size(listing::entry_views(files@)),
            Err(error) => total_size(listing::entry_views(files@)) > u64::MAX && error@
                == ErrorView::Message(
                "selected repository files exceed the supported total size"@,
            ),
        },
{
    let ghost all = listing::entry_views(files@);
    let mut total: u64 = 0;
    let mut i: usize = 0;
    while i < files.len()
        invariant
            i <= files@.len(),
            all == listing::entry_views(files@),
            total == total_size(all.take(i as int)),
        decreases files@.len() - i,
    {
        proof {
            assert(all.take(i + 1).drop_last() =~= all.take(i as int));
            assert(all.take(i + 1).last() == files@[i as int]@);
            lemma_total_size_grows(all, i + 1);
        }
        match total.checked_add(files[i].size) {
            Some(sum) => {
                total = sum;
            },
            None => {
                return Err(
                    message_error("selected repository files exceed the supported total size"),
                );
            },
        }
        i = i + 1;
    }
    proof {
        assert(all.take(i as int) =~= all);
    }
    Ok(total)
}

// ---------------------------------------------------------------------------
// Laws
// ---------------------------------------------------------------------------

/// The selected files are the files among the entries whose paths the patterns select, in
/// their order: no directory, no other path, and none left out.
pub proof fn lemma_selected_files_are_files_that_patterns_select(
    entries: Seq<TreeEntry>,
    patterns: PatternSetView,
)
    ensures
        selected(entries, patterns) == entries.filter(
            |entry: TreeEntry| entry.entry_type@ == "file"@ && patterns.selects(entry.path@),
        ),
    decreases entries.len(),
{
    reveal(Seq::filter);
    if entries.len() > 0 {
        lemma_selected_files_are_files_that_patterns_select(entries.drop_last(), patterns);
    }
}

/// Entries are sorted exactly if no path stands behind one that follows it.
pub proof fn lemma_sorted_entries_are_in_order(entries: Seq<TreeEntry>)
    ensures
        sorted(entries) <==> forall|i: int, j: int|
            0 <= i < j < entries.len() ==> text::ordered(
                (#[trigger] entries[i]).path@,
                (#[trigger] entries[j]).path@,
            ),
{
    if forall|i: int, j: int|
        0 <= i < j < entries.len() ==> text::ordered(
            (#[trigger] entries[i]).path@,
            (#[trigger] entries[j]).path@,
        ) {
        assert forall|i: int, j: int| 0 <= i <= j < entries.len() implies text::ordered(
            (#[trigger] entries[i]).path@,
            (#[trigger] entries[j]).path@,
        ) by {
            text::lemma_ordered(entries[i].path@, entries[i].path@, entries[i].path@);
        }
    }
}

/// A dry run prints one line for each file: its path, made printable.
pub proof fn lemma_dry_runs_print_one_line_for_each_file(
    left: Seq<TreeEntryView>,
    right: Seq<TreeEntryView>,
    file: TreeEntryView,
)
    ensures
        path_lines(seq![file]) == text::escaped(file.path).push('\n'),
        path_lines(left + right) == path_lines(left) + path_lines(right),
    decreases right.len(),
{
    reveal_strlit("\n");
    reveal_with_fuel(path_lines, 2);
    let one = seq![file];
    assert(one.drop_last() =~= Seq::empty());
    assert(path_lines(one) =~= text::escaped(file.path).push('\n'));
    if right.len() == 0 {
        assert(left + right =~= left);
        assert(path_lines(left) + Seq::<char>::empty() =~= path_lines(left));
    } else {
        assert((left + right).drop_last() =~= left + right.drop_last());
        lemma_dry_runs_print_one_line_for_each_file(left, right.drop_last(), file);
        assert(path_lines(left + right) =~= path_lines(left) + path_lines(right));
    }
}

/// The size of all files is the sum of their sizes.
pub proof fn lemma_sizes_are_added(
    left: Seq<TreeEntryView>,
    right: Seq<TreeEntryView>,
    file: TreeEntryView,
)
    ensures
        total_size(Seq::empty()) == 0,
        total_size(seq![file]) == file.size,
        total_size(left + right) == total_size(left) + total_size(right),
    decreases right.len(),
{
    reveal_with_fuel(total_size, 2);
    assert(seq![file].drop_last() =~= Seq::empty());
    if right.len() == 0 {
        assert(left + right =~= left);
    } else {
        assert((left + right).drop_last() =~= left + right.drop_last());
        lemma_sizes_are_added(left, right.drop_last(), file);
    }
}

/// Where no path has a backslash, every verdict is that of the patterns.
pub proof fn lemma_verdicts_are_those_of_the_patterns(
    entries: Seq<TreeEntry>,
    patterns: PatternSetView,
    verdicts: Seq<bool>,
)
    requires
        forall|i: int| 0 <= i < entries.len() ==> !(#[trigger] entries[i]).path@.contains('\\'),
    ensures
        decided(entries, patterns),
        allowed(entries, patterns, verdicts) ==> verdicts.len() == entries.len() && forall|i: int|
            0 <= i < entries.len() ==> verdicts[i] == patterns.selects(
                (#[trigger] entries[i]).path@,
            ),
{
    assert forall|i: int| 0 <= i < entries.len() implies patterns.decides(
        (#[trigger] entries[i]).path@,
    ) by {
        patterns::lemma_selection_is_inclusion_without_exclusion(
            patterns,
            entries[i].path@,
            true,
        );
    }
    if allowed(entries, patterns, verdicts) {
        lemma_decided_verdicts(entries, patterns, verdicts);
    }
}

} // verus!
