//! The directory of a log, as its entries' names tell of it.

use crate::log::names::{base_of_name, index_name, law_name_recovered, log_name};
use crate::log::{ascending, bases_to_open, named_bases};
use vstd::prelude::*;
use vstd::relations::{sorted_by, total_ordering};
use vstd::seq_lib::lemma_sorted_unique;

verus! {

/// The names of the files of segments at these base offsets.
pub open spec fn file_names(bases: Seq<u64>) -> Seq<Seq<char>>
    decreases bases.len(),
{
    if bases.len() == 0 {
        Seq::empty()
    } else {
        file_names(bases.drop_last()).push(log_name(bases.last())).push(index_name(bases.last()))
    }
}

/// The base offset that a name adds to those found so far.
spec fn with_named(found: Seq<u64>, name: Seq<char>) -> Seq<u64> {
    match base_of_name(name) {
        Some(base) => found.push(base),
        None => found,
    }
}

proof fn lemma_named_remove(names: Seq<Seq<char>>, i: int)
    requires
        0 <= i < names.len(),
    ensures
        named_bases(names).to_multiset() == with_named(
            named_bases(names.remove(i)),
            names[i],
        ).to_multiset(),
    decreases names.len(),
{
    broadcast use vstd::seq_lib::group_to_multiset_ensures;

    let init = names.drop_last();
    let last = names.last();
    if i == names.len() - 1 {
        assert(names.remove(i) =~= init);
    } else {
        lemma_named_remove(init, i);
        assert(names.remove(i).drop_last() =~= init.remove(i));
        assert(names.remove(i).last() == last);
        let rest = named_bases(init.remove(i));
        assert(named_bases(names.remove(i)) == with_named(rest, last));
        assert(named_bases(names) == with_named(named_bases(init), last));
        assert(with_named(named_bases(init), last).to_multiset() =~= with_named(
            with_named(rest, last),
            names[i],
        ).to_multiset());
    }
}

/// The base offsets found do not depend on the order of the entries.
proof fn lemma_named_any_order(names: Seq<Seq<char>>, other: Seq<Seq<char>>)
    requires
        names.to_multiset() == other.to_multiset(),
    ensures
        named_bases(names).to_multiset() == named_bases(other).to_multiset(),
    decreases names.len(),
{
    broadcast use vstd::seq_lib::group_to_multiset_ensures;

    names.to_multiset_ensures();
    other.to_multiset_ensures();
    if names.len() > 0 {
        let last = names.last();
        assert(names.contains(last));
        assert(other.to_multiset().count(last) > 0);
        let i = choose|i: int| 0 <= i < other.len() && other[i] == last;
        let n = names.len() - 1;
        assert(names.remove(n) =~= names.drop_last());
        lemma_named_any_order(names.drop_last(), other.remove(i));
        lemma_named_remove(other, i);
        lemma_named_remove(names, n);
        assert(with_named(named_bases(names.drop_last()), last).to_multiset() =~= with_named(
            named_bases(other.remove(i)),
            last,
        ).to_multiset());
    } else {
        assert(other =~= names);
    }
}

proof fn lemma_own_names(bases: Seq<u64>)
    ensures
        named_bases(file_names(bases)) == bases,
    decreases bases.len(),
{
    if bases.len() > 0 {
        let init = bases.drop_last();
        lemma_own_names(init);
        law_name_recovered(bases.last());
        let names = file_names(bases);
        let with_log = file_names(init).push(log_name(bases.last()));
        assert(names.drop_last() =~= with_log);
        assert(with_log.drop_last() =~= file_names(init));
        assert(named_bases(with_log) == init.push(bases.last()));
        assert(init.push(bases.last()) =~= bases);
    }
}

/// No segment is named by these.
pub open spec fn no_segments(names: Seq<Seq<char>>) -> bool {
    forall|i: int| 0 <= i < names.len() ==> base_of_name(#[trigger] names[i]) == None::<u64>
}

proof fn lemma_others_ignored(names: Seq<Seq<char>>, others: Seq<Seq<char>>)
    requires
        no_segments(others),
    ensures
        named_bases(names + others) == named_bases(names),
    decreases others.len(),
{
    if others.len() == 0 {
        assert(names + others =~= names);
    } else {
        let init = others.drop_last();
        assert forall|i: int| 0 <= i < init.len() implies base_of_name(#[trigger] init[i]) == None::<
            u64,
        > by {
            assert(init[i] == others[i]);
        }
        lemma_others_ignored(names, init);
        assert((names + others).drop_last() =~= names + init);
        assert((names + others).last() == others[others.len() - 1]);
    }
}

/// A directory that holds the files of segments among files of other names, listed
/// in any order, gives the segments' base offsets: whatever is ascending and consists
/// of the offsets found is the ascending list of those segments, or of the first one
/// if there are none.
pub proof fn law_directory(
    names: Seq<Seq<char>>,
    bases: Seq<u64>,
    others: Seq<Seq<char>>,
    found: Seq<u64>,
)
    requires
        ascending(bases),
        no_segments(others),
        names.to_multiset() == (file_names(bases) + others).to_multiset(),
        ascending(found),
        found.to_multiset() == bases_to_open(names).to_multiset(),
    ensures
        found == (if bases.len() == 0 {
            seq![0u64]
        } else {
            bases
        }),
{
    lemma_own_names(bases);
    lemma_others_ignored(file_names(bases), others);
    lemma_named_any_order(names, file_names(bases) + others);
    named_bases(names).to_multiset_ensures();
    bases.to_multiset_ensures();
    let expected = if bases.len() == 0 {
        seq![0u64]
    } else {
        bases
    };
    let leq = |a: u64, b: u64| a <= b;
    assert(total_ordering(leq));
    assert(sorted_by(found, leq));
    assert(sorted_by(expected, leq));
    lemma_sorted_unique(found, expected, leq);
}

} // verus!
