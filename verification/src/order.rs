use crate::package::{package_views, Package, PackageView};
use vstd::prelude::*;

verus! {

/// `sorted` with `package` put in after every package whose fee is at least
/// as high as its own.
pub open spec fn insert_by_fee(sorted: Seq<PackageView>, package: PackageView) -> Seq<PackageView>
    decreases sorted.len(),
{
    if sorted.len() == 0 {
        seq![package]
    } else if sorted.last().fee >= package.fee {
        sorted.push(package)
    } else {
        insert_by_fee(sorted.drop_last(), package).push(sorted.last())
    }
}

/// The packages by descending fee. Packages with equal fees keep the order
/// in which they are given: that is the rule for ties.
pub open spec fn fee_order(packages: Seq<PackageView>) -> Seq<PackageView>
    decreases packages.len(),
{
    if packages.len() == 0 {
        Seq::<PackageView>::empty()
    } else {
        insert_by_fee(fee_order(packages.drop_last()), packages.last())
    }
}

/// No package stands before one with a higher fee.
pub open spec fn descending_fees(packages: Seq<PackageView>) -> bool {
    forall|i: int, j: int|
        0 <= i < j < packages.len() ==> (#[trigger] packages[i]).fee >= (#[trigger] packages[j]).fee
}

/// The packages of `packages` whose fee is `fee`, in their order.
pub open spec fn with_fee(packages: Seq<PackageView>, fee: nat) -> Seq<PackageView>
    decreases packages.len(),
{
    if packages.len() == 0 {
        Seq::<PackageView>::empty()
    } else if packages.last().fee == fee {
        with_fee(packages.drop_last(), fee).push(packages.last())
    } else {
        with_fee(packages.drop_last(), fee)
    }
}

/// `sorted` is `packages` arranged by descending fee, with the packages of
/// each fee in the order in which `packages` has them.
pub open spec fn is_fee_order_of(sorted: Seq<PackageView>, packages: Seq<PackageView>) -> bool {
    &&& descending_fees(sorted)
    &&& forall|fee: nat| #[trigger] with_fee(sorted, fee) == with_fee(packages, fee)
}

proof fn lemma_with_fee_push(packages: Seq<PackageView>, package: PackageView, fee: nat)
    ensures
        with_fee(packages.push(package), fee) == if package.fee == fee {
            with_fee(packages, fee).push(package)
        } else {
            with_fee(packages, fee)
        },
{
    assert(packages.push(package).drop_last() =~= packages);
}

proof fn lemma_with_fee_concat(a: Seq<PackageView>, b: Seq<PackageView>, fee: nat)
    ensures
        with_fee(a + b, fee) == with_fee(a, fee) + with_fee(b, fee),
    decreases b.len(),
{
    if b.len() == 0 {
        assert(a + b =~= a);
        assert(with_fee(a, fee) + with_fee(b, fee) =~= with_fee(a, fee));
    } else {
        lemma_with_fee_concat(a, b.drop_last(), fee);
        assert((a + b).drop_last() =~= a + b.drop_last());
        assert(with_fee(a, fee) + with_fee(b.drop_last(), fee).push(b.last()) =~= (with_fee(a, fee)
            + with_fee(b.drop_last(), fee)).push(b.last()));
    }
}

proof fn lemma_with_fee_absent(packages: Seq<PackageView>, fee: nat)
    requires
        forall|k: int| 0 <= k < packages.len() ==> (#[trigger] packages[k]).fee != fee,
    ensures
        with_fee(packages, fee) == Seq::<PackageView>::empty(),
    decreases packages.len(),
{
    if packages.len() > 0 {
        let front = packages.drop_last();
        assert forall|k: int| 0 <= k < front.len() implies (#[trigger] front[k]).fee != fee by {
            assert(front[k] == packages[k]);
        }
        lemma_with_fee_absent(front, fee);
        assert(packages[packages.len() - 1].fee != fee);
    }
}

proof fn lemma_descending_front(packages: Seq<PackageView>)
    requires
        descending_fees(packages),
        packages.len() > 0,
    ensures
        descending_fees(packages.drop_last()),
        forall|k: int|
            0 <= k < packages.len() ==> (#[trigger] packages[k]).fee >= packages.last().fee,
{
    let front = packages.drop_last();
    assert forall|i: int, j: int| 0 <= i < j < front.len() implies (#[trigger] front[i]).fee >= (
    #[trigger] front[j]).fee by {
        assert(packages[i].fee >= packages[j].fee);
    }
    assert forall|k: int| 0 <= k < packages.len() implies (#[trigger] packages[k]).fee
        >= packages.last().fee by {
        if k < packages.len() - 1 {
            assert(packages[k].fee >= packages[packages.len() - 1].fee);
        }
    }
}

/// Putting a package in keeps a descending order, adds the package to those
/// of its fee behind the ones already there, and leaves the packages of
/// every other fee as they were.
pub proof fn lemma_insert_by_fee(sorted: Seq<PackageView>, package: PackageView, fee: nat)
    requires
        descending_fees(sorted),
    ensures
        descending_fees(insert_by_fee(sorted, package)),
        insert_by_fee(sorted, package).len() == sorted.len() + 1,
        insert_by_fee(sorted, package).to_multiset() == sorted.to_multiset().insert(package),
        with_fee(insert_by_fee(sorted, package), fee) == if package.fee == fee {
            with_fee(sorted, fee).push(package)
        } else {
            with_fee(sorted, fee)
        },
    decreases sorted.len(),
{
    broadcast use vstd::seq_lib::group_seq_properties;

    let after = insert_by_fee(sorted, package);
    if sorted.len() == 0 {
        assert(after =~= sorted.push(package));
        lemma_with_fee_push(sorted, package, fee);
    } else if sorted.last().fee >= package.fee {
        lemma_with_fee_push(sorted, package, fee);
        lemma_descending_front(sorted);
        assert forall|i: int, j: int| 0 <= i < j < after.len() implies (
        #[trigger] after[i]).fee >= (#[trigger] after[j]).fee by {
            if j == sorted.len() {
                assert(sorted[i].fee >= sorted.last().fee);
            } else {
                assert(sorted[i].fee >= sorted[j].fee);
            }
        }
    } else {
        let front = sorted.drop_last();
        let inner = insert_by_fee(front, package);
        lemma_descending_front(sorted);
        lemma_insert_by_fee(front, package, fee);
        assert(sorted =~= front.push(sorted.last()));
        assert forall|i: int, j: int| 0 <= i < j < after.len() implies (
        #[trigger] after[i]).fee >= (#[trigger] after[j]).fee by {
            if j == inner.len() {
                assert(inner.to_multiset().contains(inner[i])) by {
                    inner.to_multiset_ensures();
                    assert(inner.contains(inner[i]));
                }
                if inner[i] != package {
                    assert(front.to_multiset().contains(inner[i]));
                    front.to_multiset_ensures();
                    assert(front.contains(inner[i]));
                    let k = front.index_of(inner[i]);
                    assert(sorted[k].fee >= sorted.last().fee);
                }
            } else {
                assert(inner[i].fee >= inner[j].fee);
            }
        }
        assert(front.push(sorted.last()).to_multiset() == front.to_multiset().insert(
            sorted.last(),
        ));
        assert(after.to_multiset() =~= sorted.to_multiset().insert(package));
        lemma_with_fee_push(inner, sorted.last(), fee);
        lemma_with_fee_push(front, sorted.last(), fee);
    }
}

proof fn lemma_fee_order_at(packages: Seq<PackageView>, fee: nat)
    ensures
        descending_fees(fee_order(packages)),
        fee_order(packages).len() == packages.len(),
        fee_order(packages).to_multiset() == packages.to_multiset(),
        with_fee(fee_order(packages), fee) == with_fee(packages, fee),
    decreases packages.len(),
{
    broadcast use vstd::seq_lib::group_seq_properties;

    if packages.len() > 0 {
        let front = packages.drop_last();
        lemma_fee_order_at(front, fee);
        lemma_insert_by_fee(fee_order(front), packages.last(), fee);
        assert(packages =~= front.push(packages.last()));
        assert(front.push(packages.last()).to_multiset() == front.to_multiset().insert(
            packages.last(),
        ));
    }
}

/// The order by fee is descending, holds the packages that were given, each
/// as often as it was given, and keeps the packages of each fee in the order
/// in which they were given.
pub proof fn lemma_fee_order(packages: Seq<PackageView>)
    ensures
        is_fee_order_of(fee_order(packages), packages),
        fee_order(packages).len() == packages.len(),
        fee_order(packages).to_multiset() == packages.to_multiset(),
{
    lemma_fee_order_at(packages, 0);
    assert forall|fee: nat| #[trigger]
        with_fee(fee_order(packages), fee) == with_fee(packages, fee) by {
        lemma_fee_order_at(packages, fee);
    }
}

/// There is one order by fee: two descending arrangements that have the
/// packages of every fee in the same order are the same.
pub proof fn lemma_fee_order_unique(first: Seq<PackageView>, second: Seq<PackageView>)
    requires
        descending_fees(first),
        descending_fees(second),
        forall|fee: nat| #[trigger] with_fee(first, fee) == with_fee(second, fee),
    ensures
        first == second,
    decreases first.len(),
{
    if first.len() == 0 {
        if second.len() > 0 {
            let fee = second.last().fee;
            assert(with_fee(first, fee) == with_fee(second, fee));
            assert(with_fee(second, fee).len() > 0);
        }
        assert(first =~= second);
    } else {
        let fee = first.last().fee;
        assert(with_fee(first, fee) == with_fee(second, fee));
        assert(with_fee(first, fee).last() == first.last());
        if second.len() == 0 {
            assert(with_fee(second, fee).len() == 0);
        }
        let other = second.last().fee;
        assert(with_fee(first, other) == with_fee(second, other));
        assert(with_fee(second, other).last() == second.last());
        lemma_descending_front(first);
        lemma_descending_front(second);
        if fee < other {
            lemma_with_fee_absent(second, fee);
        } else if other < fee {
            lemma_with_fee_absent(first, other);
        }
        assert(first.last() == second.last());
        let a = first.drop_last();
        let b = second.drop_last();
        assert forall|g: nat| #[trigger] with_fee(a, g) == with_fee(b, g) by {
            assert(with_fee(first, g) == with_fee(second, g));
            if g == fee {
                assert(with_fee(a, g) =~= with_fee(first, g).drop_last());
                assert(with_fee(b, g) =~= with_fee(second, g).drop_last());
            }
        }
        lemma_fee_order_unique(a, b);
        assert(first =~= a.push(first.last()));
        assert(second =~= b.push(second.last()));
    }
}

/// Each package in the order by fee is one of the packages that were given.
pub proof fn lemma_fee_order_member(packages: Seq<PackageView>, k: int) -> (m: int)
    requires
        0 <= k < fee_order(packages).len(),
    ensures
        0 <= m < packages.len(),
        fee_order(packages)[k] == packages[m],
{
    let sorted = fee_order(packages);
    lemma_fee_order(packages);
    sorted.to_multiset_ensures();
    packages.to_multiset_ensures();
    assert(sorted.contains(sorted[k]));
    assert(packages.to_multiset().count(sorted[k]) > 0);
    assert(packages.contains(sorted[k]));
    packages.index_of(sorted[k])
}

// Two descending sequences merged into one, built from the back: the lower
// of the two last fees goes last, and of two equal ones that of `right`.
spec fn merged_by_fee(left: Seq<PackageView>, right: Seq<PackageView>) -> Seq<PackageView>
    decreases left.len() + right.len(),
{
    if left.len() == 0 {
        right
    } else if right.len() == 0 {
        left
    } else if right.last().fee <= left.last().fee {
        merged_by_fee(left, right.drop_last()).push(right.last())
    } else {
        merged_by_fee(left.drop_last(), right).push(left.last())
    }
}

proof fn lemma_merged_by_fee(
    left: Seq<PackageView>,
    right: Seq<PackageView>,
    lowest: nat,
    fee: nat,
)
    requires
        descending_fees(left),
        descending_fees(right),
        forall|k: int| 0 <= k < left.len() ==> (#[trigger] left[k]).fee >= lowest,
        forall|k: int| 0 <= k < right.len() ==> (#[trigger] right[k]).fee >= lowest,
    ensures
        descending_fees(merged_by_fee(left, right)),
        forall|k: int|
            0 <= k < merged_by_fee(left, right).len() ==> (#[trigger] merged_by_fee(
                left,
                right,
            )[k]).fee >= lowest,
        with_fee(merged_by_fee(left, right), fee) == with_fee(left, fee) + with_fee(right, fee),
    decreases left.len() + right.len(),
{
    let merged = merged_by_fee(left, right);
    if left.len() == 0 {
        assert(with_fee(left, fee) + with_fee(right, fee) =~= with_fee(right, fee));
    } else if right.len() == 0 {
        assert(with_fee(left, fee) + with_fee(right, fee) =~= with_fee(left, fee));
    } else {
        lemma_descending_front(left);
        lemma_descending_front(right);
        if right.last().fee <= left.last().fee {
            let last = right.last();
            let rest = right.drop_last();
            let inner = merged_by_fee(left, rest);
            lemma_merged_by_fee(left, rest, lowest, fee);
            lemma_merged_by_fee(left, rest, last.fee, fee);
            lemma_with_fee_push(inner, last, fee);
            assert(with_fee(left, fee) + with_fee(rest, fee).push(last) =~= (with_fee(left, fee)
                + with_fee(rest, fee)).push(last));
        } else {
            let last = left.last();
            let rest = left.drop_last();
            let inner = merged_by_fee(rest, right);
            lemma_merged_by_fee(rest, right, lowest, fee);
            lemma_merged_by_fee(rest, right, last.fee, fee);
            lemma_with_fee_push(inner, last, fee);
            if last.fee == fee {
                lemma_with_fee_absent(right, fee);
                assert(with_fee(rest, fee).push(last) + with_fee(right, fee) =~= (with_fee(
                    rest,
                    fee,
                ) + with_fee(right, fee)).push(last));
            }
        }
    }
}

fn reversed_packages(packages: Vec<Package>) -> (out: Vec<Package>)
    ensures
        package_views(out@) == package_views(packages@).reverse(),
{
    let ghost given = package_views(packages@);
    let mut packages = packages;
    let mut out: Vec<Package> = Vec::new();
    while packages.len() > 0
        invariant
            packages.len() + out.len() == given.len(),
            forall|k: int| 0 <= k < packages.len() ==> packages[k]@ == given[k],
            forall|k: int| 0 <= k < out.len() ==> out[k]@ == given[given.len() - 1 - k],
        decreases packages.len(),
    {
        let package = packages.pop().unwrap();
        out.push(package);
    }
    assert(package_views(out@) =~= given.reverse());
    out
}

fn merge_by_fee(left: Vec<Package>, right: Vec<Package>) -> (out: Vec<Package>)
    ensures
        package_views(out@) == merged_by_fee(package_views(left@), package_views(right@)),
{
    let ghost goal = merged_by_fee(package_views(left@), package_views(right@));
    let mut left = left;
    let mut right = right;
    let mut back: Vec<Package> = Vec::new();
    proof {
        assert(package_views(back@).reverse() =~= Seq::<PackageView>::empty());
        assert(goal + Seq::<PackageView>::empty() =~= goal);
    }
    while left.len() > 0 || right.len() > 0
        invariant
            merged_by_fee(package_views(left@), package_views(right@)) + package_views(
                back@,
            ).reverse() == goal,
        decreases left.len() + right.len(),
    {
        let ghost a = package_views(left@);
        let ghost b = package_views(right@);
        let ghost taken = package_views(back@);
        let from_right = if left.len() == 0 {
            true
        } else if right.len() == 0 {
            false
        } else {
            right[right.len() - 1].fee <= left[left.len() - 1].fee
        };
        if from_right {
            let package = right.pop().unwrap();
            proof {
                assert(package_views(right@) =~= b.drop_last());
                assert(package@ == b.last());
                assert(merged_by_fee(a, b) =~= merged_by_fee(a, b.drop_last()).push(b.last()));
                assert(taken.push(package@).reverse() =~= seq![package@] + taken.reverse());
                assert(merged_by_fee(a, b.drop_last()) + (seq![package@] + taken.reverse())
                    =~= merged_by_fee(a, b) + taken.reverse());
            }
            back.push(package);
            proof {
                assert(package_views(back@) =~= taken.push(package@));
            }
        } else {
            let package = left.pop().unwrap();
            proof {
                assert(package_views(left@) =~= a.drop_last());
                assert(package@ == a.last());
                assert(merged_by_fee(a, b) =~= merged_by_fee(a.drop_last(), b).push(a.last()));
                assert(taken.push(package@).reverse() =~= seq![package@] + taken.reverse());
                assert(merged_by_fee(a.drop_last(), b) + (seq![package@] + taken.reverse())
                    =~= merged_by_fee(a, b) + taken.reverse());
            }
            back.push(package);
            proof {
                assert(package_views(back@) =~= taken.push(package@));
            }
        }
    }
    proof {
        assert(merged_by_fee(package_views(left@), package_views(right@)) =~= Seq::<
            PackageView,
        >::empty());
        assert(Seq::<PackageView>::empty() + package_views(back@).reverse() =~= package_views(
            back@,
        ).reverse());
    }
    reversed_packages(back)
}

fn merge_sort_by_fee(packages: Vec<Package>) -> (sorted: Vec<Package>)
    ensures
        is_fee_order_of(package_views(sorted@), package_views(packages@)),
    decreases packages.len(),
{
    if packages.len() <= 1 {
        return packages;
    }
    let ghost given = package_views(packages@);
    let mut left = packages;
    let right = left.split_off(left.len() / 2);
    let ghost a = package_views(left@);
    let ghost b = package_views(right@);
    proof {
        assert(given =~= a + b);
    }
    let left = merge_sort_by_fee(left);
    let right = merge_sort_by_fee(right);
    proof {
        let sorted_a = package_views(left@);
        let sorted_b = package_views(right@);
        lemma_merged_by_fee(sorted_a, sorted_b, 0, 0);
        assert forall|fee: nat| #[trigger]
            with_fee(merged_by_fee(sorted_a, sorted_b), fee) == with_fee(given, fee) by {
            lemma_merged_by_fee(sorted_a, sorted_b, 0, fee);
            lemma_with_fee_concat(a, b, fee);
            assert(with_fee(sorted_a, fee) == with_fee(a, fee));
            assert(with_fee(sorted_b, fee) == with_fee(b, fee));
        }
    }
    merge_by_fee(left, right)
}

/// Sorts the packages by descending fee. The sort is stable: packages with
/// equal fees stay in the order in which they were given.
pub fn sort_by_fee(packages: Vec<Package>) -> (sorted: Vec<Package>)
    ensures
        package_views(sorted@) == fee_order(package_views(packages@)),
{
    let ghost given = package_views(packages@);
    let sorted = merge_sort_by_fee(packages);
    proof {
        lemma_fee_order(given);
        lemma_fee_order_unique(package_views(sorted@), fee_order(given));
    }
    sorted
}

} // verus!
