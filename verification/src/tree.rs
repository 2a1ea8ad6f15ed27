//! The walk over a whole tree: what the machine of `walker` records, or
//! fails with, when its driver lists every directory it is asked for, held
//! against a plain description of the files in scope and of the first
//! directory that cannot be listed.

use crate::exclusion::excluded;
use crate::walker::{settle, stacked, EntryKind, EntryView, WalkErrorView};
use vstd::prelude::*;
use vstd::seq_lib::{lemma_multiset_commutative, to_multiset_contains, to_multiset_len, to_multiset_remove};

verus! {

/// What a directory of the tree holds; nothing where it cannot be listed.
pub open spec fn listing_of(
    ls: spec_fn(Seq<char>) -> Result<Seq<EntryView>, Seq<char>>,
    dir: Seq<char>,
) -> Seq<EntryView> {
    match ls(dir) {
        Ok(listing) => listing,
        Err(_) => Seq::empty(),
    }
}

/// The files in scope in a listing and below it, in the order of a
/// depth-first walk: an excluded entry gives nothing, whatever lies below
/// it; a file gives its path; a directory gives what its own listing gives.
/// `ls` is the tree, from a directory's path to its listing or to the cause
/// for which it cannot be listed; `depth` is how far down directories are
/// followed.
pub open spec fn files_in(
    ls: spec_fn(Seq<char>) -> Result<Seq<EntryView>, Seq<char>>,
    listing: Seq<EntryView>,
    names: Seq<Seq<char>>,
    depth: nat,
) -> Seq<Seq<char>>
    decreases depth, listing.len(),
{
    if listing.len() == 0 {
        Seq::empty()
    } else {
        let first = listing.first();
        let after = files_in(ls, listing.drop_first(), names, depth);
        if excluded(first.path, names) {
            after
        } else {
            match first.kind {
                EntryKind::File => seq![first.path] + after,
                EntryKind::Other => after,
                EntryKind::Directory => if depth == 0 {
                    after
                } else {
                    files_in(ls, listing_of(ls, first.path), names, (depth - 1) as nat) + after
                },
            }
        }
    }
}

/// The tree below a listing is no deeper than `depth`: every directory in
/// scope can be followed.
pub open spec fn fits(
    ls: spec_fn(Seq<char>) -> Result<Seq<EntryView>, Seq<char>>,
    listing: Seq<EntryView>,
    names: Seq<Seq<char>>,
    depth: nat,
) -> bool
    decreases depth, listing.len(),
{
    if listing.len() == 0 {
        true
    } else {
        let first = listing.first();
        &&& fits(ls, listing.drop_first(), names, depth)
        &&& (excluded(first.path, names) || first.kind != EntryKind::Directory || (depth > 0
            && fits(ls, listing_of(ls, first.path), names, (depth - 1) as nat)))
    }
}

/// How many directories in scope a listing holds, itself and below.
pub open spec fn dirs_in(
    ls: spec_fn(Seq<char>) -> Result<Seq<EntryView>, Seq<char>>,
    listing: Seq<EntryView>,
    names: Seq<Seq<char>>,
    depth: nat,
) -> nat
    decreases depth, listing.len(),
{
    if listing.len() == 0 {
        0
    } else {
        let first = listing.first();
        let after = dirs_in(ls, listing.drop_first(), names, depth);
        if !excluded(first.path, names) && first.kind == EntryKind::Directory && depth > 0 {
            1 + dirs_in(ls, listing_of(ls, first.path), names, (depth - 1) as nat) + after
        } else {
            after
        }
    }
}

/// The first directory in scope that cannot be listed, in the order of a
/// depth-first walk, with its cause; none where every directory that the
/// walk comes to can be listed.
pub open spec fn first_failure(
    ls: spec_fn(Seq<char>) -> Result<Seq<EntryView>, Seq<char>>,
    listing: Seq<EntryView>,
    names: Seq<Seq<char>>,
    depth: nat,
) -> Option<WalkErrorView>
    decreases depth, listing.len(),
{
    if listing.len() == 0 {
        None
    } else {
        let first = listing.first();
        let after = first_failure(ls, listing.drop_first(), names, depth);
        if !excluded(first.path, names) && first.kind == EntryKind::Directory && depth > 0 {
            match ls(first.path) {
                Err(cause) => Some(WalkErrorView { dir: first.path, cause }),
                Ok(inner) => match first_failure(ls, inner, names, (depth - 1) as nat) {
                    Some(failure) => Some(failure),
                    None => after,
                },
            }
        } else {
            after
        }
    }
}

/// How a walk ends, if `fuel` listings are enough for it: the machine goes
/// on as far as it can, its driver lists the directory it asks for, and so
/// on. The walk ends with what it has recorded when no directory is asked
/// for, and with the failure as soon as a directory cannot be listed.
pub open spec fn walk_from(
    ls: spec_fn(Seq<char>) -> Result<Seq<EntryView>, Seq<char>>,
    pending: Seq<EntryView>,
    found: Seq<Seq<char>>,
    names: Seq<Seq<char>>,
    fuel: nat,
) -> Option<Result<Seq<Seq<char>>, WalkErrorView>>
    decreases fuel,
{
    let settled = settle(pending, found, names);
    match settled.ask {
        None => Some(Ok(settled.found)),
        Some(dir) => if fuel == 0 {
            None
        } else {
            match ls(dir) {
                Err(cause) => Some(Err(WalkErrorView { dir, cause })),
                Ok(listing) => walk_from(
                    ls,
                    stacked(settled.pending, listing),
                    settled.found,
                    names,
                    (fuel - 1) as nat,
                ),
            }
        },
    }
}

/// The walk of the tree below `root`: it fails at once where the root
/// itself cannot be listed.
pub open spec fn walk_of(
    ls: spec_fn(Seq<char>) -> Result<Seq<EntryView>, Seq<char>>,
    root: Seq<char>,
    names: Seq<Seq<char>>,
    fuel: nat,
) -> Option<Result<Seq<Seq<char>>, WalkErrorView>> {
    match ls(root) {
        Err(cause) => Some(Err(WalkErrorView { dir: root, cause })),
        Ok(listing) => walk_from(ls, stacked(Seq::empty(), listing), Seq::empty(), names, fuel),
    }
}

/// How a walk of a listing ends that goes on with `rest` afterwards.
pub open spec fn outcome_of(
    ls: spec_fn(Seq<char>) -> Result<Seq<EntryView>, Seq<char>>,
    listing: Seq<EntryView>,
    rest: Seq<EntryView>,
    found: Seq<Seq<char>>,
    names: Seq<Seq<char>>,
    depth: nat,
    fuel: nat,
) -> Option<Result<Seq<Seq<char>>, WalkErrorView>> {
    match first_failure(ls, listing, names, depth) {
        Some(failure) => Some(Err(failure)),
        None => walk_from(ls, rest, found + files_in(ls, listing, names, depth), names, fuel),
    }
}

/// A listing laid on what is still to do is walked to its end before the
/// walk goes on with the rest, and adds exactly its files in scope; unless a
/// directory in it, or below it, cannot be listed: then the walk ends with
/// the first such failure, and the rest is never looked at.
pub proof fn lemma_walk_through(
    ls: spec_fn(Seq<char>) -> Result<Seq<EntryView>, Seq<char>>,
    listing: Seq<EntryView>,
    rest: Seq<EntryView>,
    found: Seq<Seq<char>>,
    names: Seq<Seq<char>>,
    depth: nat,
    fuel: nat,
)
    requires
        fits(ls, listing, names, depth),
    ensures
        walk_from(ls, stacked(rest, listing), found, names, dirs_in(ls, listing, names, depth) + fuel)
            == outcome_of(ls, listing, rest, found, names, depth, fuel),
    decreases depth, listing.len(),
{
    if listing.len() == 0 {
        assert(stacked(rest, listing) =~= rest);
        assert(found + files_in(ls, listing, names, depth) =~= found);
    } else {
        let first = listing.first();
        let tail = listing.drop_first();
        let below = stacked(rest, tail);
        let cost_tail = dirs_in(ls, tail, names, depth);
        assert(stacked(rest, listing) =~= below.push(first));
        assert(below.push(first).drop_last() =~= below);
        assert(below.push(first).last() == first);
        if excluded(first.path, names) || first.kind == EntryKind::Other {
            assert(settle(below.push(first), found, names) == settle(below, found, names));
            lemma_walk_through(ls, tail, rest, found, names, depth, fuel);
        } else if first.kind == EntryKind::File {
            let more = found.push(first.path);
            assert(settle(below.push(first), found, names) == settle(below, more, names));
            lemma_walk_through(ls, tail, rest, more, names, depth, fuel);
            assert(more + files_in(ls, tail, names, depth) =~= found + files_in(
                ls,
                listing,
                names,
                depth,
            ));
        } else {
            let inner = listing_of(ls, first.path);
            let deeper = (depth - 1) as nat;
            let cost_inner = dirs_in(ls, inner, names, deeper);
            let total = dirs_in(ls, listing, names, depth) + fuel;
            assert(total == 1 + cost_inner + cost_tail + fuel);
            assert(settle(below.push(first), found, names).ask == Some(first.path));
            assert(settle(below.push(first), found, names).pending == below);
            assert(settle(below.push(first), found, names).found == found);
            match ls(first.path) {
                Err(cause) => {
                    assert(walk_from(ls, below.push(first), found, names, total) == Some(
                        Err::<Seq<Seq<char>>, WalkErrorView>(
                            WalkErrorView { dir: first.path, cause },
                        ),
                    ));
                },
                Ok(given) => {
                    assert(given == inner);
                    assert(walk_from(ls, below.push(first), found, names, total) == walk_from(
                        ls,
                        stacked(below, inner),
                        found,
                        names,
                        (total - 1) as nat,
                    ));
                    lemma_walk_through(ls, inner, below, found, names, deeper, cost_tail + fuel);
                    if first_failure(ls, inner, names, deeper) is None {
                        let grown = found + files_in(ls, inner, names, deeper);
                        lemma_walk_through(ls, tail, rest, grown, names, depth, fuel);
                        assert(grown + files_in(ls, tail, names, depth) =~= found + files_in(
                            ls,
                            listing,
                            names,
                            depth,
                        ));
                    }
                },
            }
        }
    }
}

/// How the walk of a tree ends. A root that cannot be listed fails the walk
/// at once. Else, with enough listings allowed, the walk fails exactly when
/// some directory in scope that it comes to cannot be listed, and then with
/// the first one in depth-first order; where there is none, it records
/// exactly the files in scope, each as often as the tree holds it.
pub proof fn lemma_walk_is_exact(
    ls: spec_fn(Seq<char>) -> Result<Seq<EntryView>, Seq<char>>,
    root: Seq<char>,
    names: Seq<Seq<char>>,
    depth: nat,
    fuel: nat,
)
    requires
        fits(ls, listing_of(ls, root), names, depth),
        fuel >= dirs_in(ls, listing_of(ls, root), names, depth),
    ensures
        walk_of(ls, root, names, fuel) == (match ls(root) {
            Err(cause) => Some(
                Err::<Seq<Seq<char>>, WalkErrorView>(WalkErrorView { dir: root, cause }),
            ),
            Ok(listing) => match first_failure(ls, listing, names, depth) {
                Some(failure) => Some(Err(failure)),
                None => Some(Ok(files_in(ls, listing, names, depth))),
            },
        }),
{
    match ls(root) {
        Err(_) => {},
        Ok(listing) => {
            let none = Seq::<EntryView>::empty();
            let nothing = Seq::<Seq<char>>::empty();
            let spare = (fuel - dirs_in(ls, listing, names, depth)) as nat;
            lemma_walk_through(ls, listing, none, nothing, names, depth, spare);
            assert(nothing + files_in(ls, listing, names, depth) =~= files_in(
                ls,
                listing,
                names,
                depth,
            ));
        },
    }
}

/// A failure that ends a walk is a true one: the directory is in scope and
/// is the one that could not be listed, for the cause given.
pub proof fn lemma_failure_is_real(
    ls: spec_fn(Seq<char>) -> Result<Seq<EntryView>, Seq<char>>,
    listing: Seq<EntryView>,
    names: Seq<Seq<char>>,
    depth: nat,
)
    requires
        first_failure(ls, listing, names, depth) is Some,
    ensures
        !excluded(first_failure(ls, listing, names, depth)->0.dir, names),
        ls(first_failure(ls, listing, names, depth)->0.dir) == Err::<Seq<EntryView>, Seq<char>>(
            first_failure(ls, listing, names, depth)->0.cause,
        ),
    decreases depth, listing.len(),
{
    let first = listing.first();
    let tail = listing.drop_first();
    if !excluded(first.path, names) && first.kind == EntryKind::Directory && depth > 0 {
        match ls(first.path) {
            Err(_) => {},
            Ok(inner) => {
                if first_failure(ls, inner, names, (depth - 1) as nat) is Some {
                    lemma_failure_is_real(ls, inner, names, (depth - 1) as nat);
                } else {
                    lemma_failure_is_real(ls, tail, names, depth);
                }
            },
        }
    } else {
        lemma_failure_is_real(ls, tail, names, depth);
    }
}

/// No failure is passed over: where a listing holds a directory in scope
/// that cannot be listed, or one below which a walk fails, the walk of the
/// listing fails too.
pub proof fn lemma_failure_is_met(
    ls: spec_fn(Seq<char>) -> Result<Seq<EntryView>, Seq<char>>,
    listing: Seq<EntryView>,
    names: Seq<Seq<char>>,
    depth: nat,
    k: int,
)
    requires
        0 <= k < listing.len(),
        !excluded(listing[k].path, names),
        listing[k].kind == EntryKind::Directory,
        depth > 0,
        ls(listing[k].path) is Err || first_failure(
            ls,
            listing_of(ls, listing[k].path),
            names,
            (depth - 1) as nat,
        ) is Some,
    ensures
        first_failure(ls, listing, names, depth) is Some,
    decreases listing.len(),
{
    if k > 0 {
        let tail = listing.drop_first();
        assert(tail[k - 1] == listing[k]);
        lemma_failure_is_met(ls, tail, names, depth, k - 1);
    }
}

/// Where every directory in scope can be listed, no walk fails.
pub proof fn lemma_no_failure_where_all_listed(
    ls: spec_fn(Seq<char>) -> Result<Seq<EntryView>, Seq<char>>,
    listing: Seq<EntryView>,
    names: Seq<Seq<char>>,
    depth: nat,
)
    requires
        forall|dir: Seq<char>| !excluded(dir, names) ==> #[trigger] ls(dir) is Ok,
    ensures
        first_failure(ls, listing, names, depth) is None,
    decreases depth, listing.len(),
{
    if listing.len() > 0 {
        let first = listing.first();
        lemma_no_failure_where_all_listed(ls, listing.drop_first(), names, depth);
        if !excluded(first.path, names) && first.kind == EntryKind::Directory && depth > 0 {
            assert(ls(first.path) is Ok);
            lemma_no_failure_where_all_listed(
                ls,
                ls(first.path)->Ok_0,
                names,
                (depth - 1) as nat,
            );
        }
    }
}

/// No file that a walk of a whole tree records has an excluded component.
pub proof fn lemma_files_in_scope(
    ls: spec_fn(Seq<char>) -> Result<Seq<EntryView>, Seq<char>>,
    listing: Seq<EntryView>,
    names: Seq<Seq<char>>,
    depth: nat,
    i: int,
)
    requires
        0 <= i < files_in(ls, listing, names, depth).len(),
    ensures
        !excluded(files_in(ls, listing, names, depth)[i], names),
    decreases depth, listing.len(),
{
    let first = listing.first();
    let tail = listing.drop_first();
    let after = files_in(ls, tail, names, depth);
    if excluded(first.path, names) || first.kind == EntryKind::Other {
        lemma_files_in_scope(ls, tail, names, depth, i);
    } else if first.kind == EntryKind::File {
        if i > 0 {
            lemma_files_in_scope(ls, tail, names, depth, i - 1);
        }
    } else if depth == 0 {
        lemma_files_in_scope(ls, tail, names, depth, i);
    } else {
        let inner = files_in(ls, listing_of(ls, first.path), names, (depth - 1) as nat);
        if i < inner.len() {
            lemma_files_in_scope(ls, listing_of(ls, first.path), names, (depth - 1) as nat, i);
        } else {
            lemma_files_in_scope(ls, tail, names, depth, i - inner.len());
        }
    }
}

/// Nothing in scope is missed: a file in scope that a listing holds is among
/// the files of that listing, and so is every file of a directory in scope
/// that the listing holds.
pub proof fn lemma_files_in_complete(
    ls: spec_fn(Seq<char>) -> Result<Seq<EntryView>, Seq<char>>,
    listing: Seq<EntryView>,
    names: Seq<Seq<char>>,
    depth: nat,
    k: int,
)
    requires
        0 <= k < listing.len(),
        !excluded(listing[k].path, names),
    ensures
        listing[k].kind == EntryKind::File ==> files_in(ls, listing, names, depth).contains(
            listing[k].path,
        ),
        listing[k].kind == EntryKind::Directory && depth > 0 ==> forall|f: Seq<char>|
            files_in(ls, listing_of(ls, listing[k].path), names, (depth - 1) as nat).contains(f)
                ==> files_in(ls, listing, names, depth).contains(f),
    decreases listing.len(),
{
    let first = listing.first();
    let tail = listing.drop_first();
    let after = files_in(ls, tail, names, depth);
    let all = files_in(ls, listing, names, depth);
    if k == 0 {
        if first.kind == EntryKind::File {
            assert(all[0] == first.path);
        } else if first.kind == EntryKind::Directory && depth > 0 {
            let inner = files_in(ls, listing_of(ls, first.path), names, (depth - 1) as nat);
            assert forall|f: Seq<char>| inner.contains(f) implies all.contains(f) by {
                let i = choose|i: int| 0 <= i < inner.len() && inner[i] == f;
                assert(all[i] == f);
            }
        }
    } else {
        lemma_files_in_complete(ls, tail, names, depth, k - 1);
        assert(tail[k - 1] == listing[k]);
        assert(exists|head: Seq<Seq<char>>| all == head + after) by {
            if excluded(first.path, names) || first.kind == EntryKind::Other {
                assert(all == Seq::<Seq<char>>::empty() + after);
            } else if first.kind == EntryKind::File {
                assert(all == seq![first.path] + after);
            } else if depth == 0 {
                assert(all == Seq::<Seq<char>>::empty() + after);
            } else {
                assert(all == files_in(ls, listing_of(ls, first.path), names, (depth - 1) as nat) + after);
            }
        }
        let head = choose|head: Seq<Seq<char>>| all == head + after;
        assert forall|f: Seq<char>| after.contains(f) implies all.contains(f) by {
            let i = choose|i: int| 0 <= i < after.len() && after[i] == f;
            assert(all[head.len() + i] == f);
        }
    }
}

/// The files of a listing are those of its front, then those of its back.
pub proof fn lemma_files_in_append(
    ls: spec_fn(Seq<char>) -> Result<Seq<EntryView>, Seq<char>>,
    front: Seq<EntryView>,
    back: Seq<EntryView>,
    names: Seq<Seq<char>>,
    depth: nat,
)
    ensures
        files_in(ls, front + back, names, depth) == files_in(ls, front, names, depth) + files_in(
            ls,
            back,
            names,
            depth,
        ),
    decreases front.len(),
{
    let whole = front + back;
    if front.len() == 0 {
        assert(whole =~= back);
        assert(files_in(ls, front, names, depth) + files_in(ls, back, names, depth) =~= files_in(
            ls,
            back,
            names,
            depth,
        ));
    } else {
        assert(whole.first() == front.first());
        assert(whole.drop_first() =~= front.drop_first() + back);
        lemma_files_in_append(ls, front.drop_first(), back, names, depth);
        assert(files_in(ls, whole, names, depth) =~= files_in(ls, front, names, depth) + files_in(
            ls,
            back,
            names,
            depth,
        ));
    }
}

/// Two trees hold the same entries in each directory, in whatever order; a
/// directory that cannot be listed counts as holding none.
pub open spec fn same_entries(
    ls1: spec_fn(Seq<char>) -> Result<Seq<EntryView>, Seq<char>>,
    ls2: spec_fn(Seq<char>) -> Result<Seq<EntryView>, Seq<char>>,
) -> bool {
    forall|dir: Seq<char>|
        (#[trigger] listing_of(ls1, dir)).to_multiset() == listing_of(ls2, dir).to_multiset()
}

/// The order in which directories yield their entries does not change which
/// files are in scope, nor how often: only the order in which they are met.
pub proof fn lemma_listing_order_irrelevant(
    ls1: spec_fn(Seq<char>) -> Result<Seq<EntryView>, Seq<char>>,
    ls2: spec_fn(Seq<char>) -> Result<Seq<EntryView>, Seq<char>>,
    listing1: Seq<EntryView>,
    listing2: Seq<EntryView>,
    names: Seq<Seq<char>>,
    depth: nat,
)
    requires
        same_entries(ls1, ls2),
        listing1.to_multiset() == listing2.to_multiset(),
    ensures
        files_in(ls1, listing1, names, depth).to_multiset() == files_in(
            ls2,
            listing2,
            names,
            depth,
        ).to_multiset(),
    decreases depth, listing1.len(),
{
    to_multiset_len(listing1);
    to_multiset_len(listing2);
    if listing1.len() == 0 {
        assert(listing2.len() == 0);
    } else {
        let first = listing1.first();
        let tail = listing1.drop_first();
        let one = seq![first];
        let none = Seq::<EntryView>::empty();
        to_multiset_contains(listing1, first);
        to_multiset_contains(listing2, first);
        assert(listing1[0] == first);
        assert(listing1.contains(first));
        let j = choose|j: int| 0 <= j < listing2.len() && listing2[j] == first;
        let front = listing2.take(j);
        let back = listing2.skip(j + 1);
        let others = listing2.remove(j);
        assert(listing2 =~= (front + one) + back);
        assert(others =~= front + back);
        assert(listing1 =~= one + tail);
        assert(tail =~= listing1.remove(0));
        to_multiset_remove(listing1, 0);
        to_multiset_remove(listing2, j);
        lemma_listing_order_irrelevant(ls1, ls2, tail, others, names, depth);

        lemma_files_in_append(ls1, one, tail, names, depth);
        lemma_files_in_append(ls2, front + one, back, names, depth);
        lemma_files_in_append(ls2, front, one, names, depth);
        lemma_files_in_append(ls2, front, back, names, depth);

        let own1 = files_in(ls1, one, names, depth);
        let own2 = files_in(ls2, one, names, depth);
        assert(one.first() == first);
        assert(one.drop_first() =~= none);
        assert(files_in(ls1, none, names, depth) =~= Seq::<Seq<char>>::empty());
        assert(files_in(ls2, none, names, depth) =~= Seq::<Seq<char>>::empty());
        assert(own1.to_multiset() == own2.to_multiset()) by {
            if !excluded(first.path, names) && first.kind == EntryKind::Directory && depth > 0 {
                let deeper = (depth - 1) as nat;
                lemma_listing_order_irrelevant(
                    ls1,
                    ls2,
                    listing_of(ls1, first.path),
                    listing_of(ls2, first.path),
                    names,
                    deeper,
                );
                assert(own1 =~= files_in(ls1, listing_of(ls1, first.path), names, deeper));
                assert(own2 =~= files_in(ls2, listing_of(ls2, first.path), names, deeper));
            } else {
                assert(own1 =~= own2);
            }
        }
        let f_front = files_in(ls2, front, names, depth);
        let f_back = files_in(ls2, back, names, depth);
        let f_tail = files_in(ls1, tail, names, depth);
        lemma_multiset_commutative(own1, f_tail);
        lemma_multiset_commutative(f_front + own2, f_back);
        lemma_multiset_commutative(f_front, own2);
        lemma_multiset_commutative(f_front, f_back);
        assert(files_in(ls1, listing1, names, depth).to_multiset() =~= files_in(
            ls2,
            listing2,
            names,
            depth,
        ).to_multiset());
    }
}

/// Every directory in scope can be listed.
pub open spec fn all_listed(
    ls: spec_fn(Seq<char>) -> Result<Seq<EntryView>, Seq<char>>,
    names: Seq<Seq<char>>,
) -> bool {
    forall|dir: Seq<char>| !excluded(dir, names) ==> #[trigger] ls(dir) is Ok
}

/// Two walks of trees that hold the same entries, and in which every
/// directory in scope can be listed, record the same files, each as often
/// as the other.
pub proof fn lemma_walks_agree(
    ls1: spec_fn(Seq<char>) -> Result<Seq<EntryView>, Seq<char>>,
    ls2: spec_fn(Seq<char>) -> Result<Seq<EntryView>, Seq<char>>,
    root: Seq<char>,
    names: Seq<Seq<char>>,
    depth: nat,
    fuel: nat,
)
    requires
        same_entries(ls1, ls2),
        all_listed(ls1, names),
        all_listed(ls2, names),
        ls1(root) is Ok,
        ls2(root) is Ok,
        fits(ls1, listing_of(ls1, root), names, depth),
        fits(ls2, listing_of(ls2, root), names, depth),
        fuel >= dirs_in(ls1, listing_of(ls1, root), names, depth),
        fuel >= dirs_in(ls2, listing_of(ls2, root), names, depth),
    ensures
        walk_of(ls1, root, names, fuel) matches Some(Ok(found1)) && walk_of(ls2, root, names, fuel)
            matches Some(Ok(found2)) && found1.to_multiset() == found2.to_multiset(),
{
    let listing1 = listing_of(ls1, root);
    let listing2 = listing_of(ls2, root);
    lemma_walk_is_exact(ls1, root, names, depth, fuel);
    lemma_walk_is_exact(ls2, root, names, depth, fuel);
    lemma_no_failure_where_all_listed(ls1, listing1, names, depth);
    lemma_no_failure_where_all_listed(ls2, listing2, names, depth);
    lemma_listing_order_irrelevant(ls1, ls2, listing1, listing2, names, depth);
}

/// Two trees agree on every directory in scope, on what it holds or on why
/// it cannot be listed; what they hold in excluded directories is left open.
pub open spec fn same_in_scope(
    ls1: spec_fn(Seq<char>) -> Result<Seq<EntryView>, Seq<char>>,
    ls2: spec_fn(Seq<char>) -> Result<Seq<EntryView>, Seq<char>>,
    names: Seq<Seq<char>>,
) -> bool {
    forall|dir: Seq<char>| !excluded(dir, names) ==> #[trigger] ls1(dir) == ls2(dir)
}

/// Pruning: what an excluded directory holds, be it thousands of files, and
/// whether it can be listed at all, does not show in how a walk ends, since
/// the directory is never listed.
pub proof fn lemma_excluded_subtrees_unseen(
    ls1: spec_fn(Seq<char>) -> Result<Seq<EntryView>, Seq<char>>,
    ls2: spec_fn(Seq<char>) -> Result<Seq<EntryView>, Seq<char>>,
    listing: Seq<EntryView>,
    names: Seq<Seq<char>>,
    depth: nat,
)
    requires
        same_in_scope(ls1, ls2, names),
    ensures
        files_in(ls1, listing, names, depth) == files_in(ls2, listing, names, depth),
        fits(ls1, listing, names, depth) == fits(ls2, listing, names, depth),
        dirs_in(ls1, listing, names, depth) == dirs_in(ls2, listing, names, depth),
        first_failure(ls1, listing, names, depth) == first_failure(ls2, listing, names, depth),
    decreases depth, listing.len(),
{
    if listing.len() > 0 {
        let first = listing.first();
        lemma_excluded_subtrees_unseen(ls1, ls2, listing.drop_first(), names, depth);
        if !excluded(first.path, names) && first.kind == EntryKind::Directory && depth > 0 {
            assert(ls1(first.path) == ls2(first.path));
            lemma_excluded_subtrees_unseen(
                ls1,
                ls2,
                listing_of(ls1, first.path),
                names,
                (depth - 1) as nat,
            );
        }
    }
}

/// An excluded entry contributes no file, whatever it is and whatever lies
/// below it.
pub proof fn lemma_excluded_entry_gives_nothing(
    ls: spec_fn(Seq<char>) -> Result<Seq<EntryView>, Seq<char>>,
    entry: EntryView,
    names: Seq<Seq<char>>,
    depth: nat,
)
    requires
        excluded(entry.path, names),
    ensures
        files_in(ls, seq![entry], names, depth) == Seq::<Seq<char>>::empty(),
        dirs_in(ls, seq![entry], names, depth) == 0,
        first_failure(ls, seq![entry], names, depth) is None,
{
    let one = seq![entry];
    assert(one.first() == entry);
    assert(one.drop_first() =~= Seq::<EntryView>::empty());
    assert(files_in(ls, one.drop_first(), names, depth) =~= Seq::<Seq<char>>::empty());
    assert(dirs_in(ls, one.drop_first(), names, depth) == 0);
    assert(first_failure(ls, one.drop_first(), names, depth) is None);
}

} // verus!
