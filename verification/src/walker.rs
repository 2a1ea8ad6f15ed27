//! The tree walk as a machine: it decides what to skip, what to record and
//! which directory to list next; its driver does the listing.

use crate::exclusion::{below, excluded, is_excluded, lemma_excluded_below, texts};
use vstd::prelude::*;

verus! {

/// What kind of thing a directory entry is.
#[derive(Clone, Copy, Debug, PartialEq, Eq, Structural)]
pub enum EntryKind {
    Directory,
    File,
    Other,
}

/// One entry of a directory listing, with its full path.
#[derive(Debug, PartialEq, Eq)]
pub struct Entry {
    pub path: String,
    pub kind: EntryKind,
}

/// An entry as the contracts see it.
pub struct EntryView {
    pub path: Seq<char>,
    pub kind: EntryKind,
}

impl View for Entry {
    type V = EntryView;

    open spec fn view(&self) -> EntryView {
        EntryView { path: self.path@, kind: self.kind }
    }
}

/// What a list of entries holds.
pub open spec fn entry_views(v: Seq<Entry>) -> Seq<EntryView> {
    Seq::new(v.len(), |i: int| v[i]@)
}

/// What the walk asks of its driver next.
#[derive(Debug, PartialEq, Eq)]
pub enum Step {
    /// List this directory and supply its entries.
    List(String),
    /// Nothing is left to do.
    Done,
}

/// A directory that could not be listed, and why. The walk ends with it.
#[derive(Debug, PartialEq, Eq)]
pub struct WalkError {
    pub dir: String,
    pub cause: String,
}

/// A failed listing as the contracts see it.
pub struct WalkErrorView {
    pub dir: Seq<char>,
    pub cause: Seq<char>,
}

impl View for WalkError {
    type V = WalkErrorView;

    open spec fn view(&self) -> WalkErrorView {
        WalkErrorView { dir: self.dir@, cause: self.cause@ }
    }
}

/// Where a walk stands after it has gone on as far as it can alone.
pub struct Settled {
    /// Entries still to look at, the next one last.
    pub pending: Seq<EntryView>,
    /// Files recorded so far, in the order they were met.
    pub found: Seq<Seq<char>>,
    /// The directory to list next, if the walk is not over.
    pub ask: Option<Seq<char>>,
}

/// Takes entries off the end of `pending` until a directory has to be listed or
/// none is left: an excluded entry is dropped whole, a file is recorded, a
/// directory is asked for, anything else is passed over.
pub open spec fn settle(pending: Seq<EntryView>, found: Seq<Seq<char>>, names: Seq<Seq<char>>) -> Settled
    decreases pending.len(),
{
    if pending.len() == 0 {
        Settled { pending, found, ask: None }
    } else {
        let next = pending.last();
        let rest = pending.drop_last();
        if excluded(next.path, names) {
            settle(rest, found, names)
        } else {
            match next.kind {
                EntryKind::Directory => Settled { pending: rest, found, ask: Some(next.path) },
                EntryKind::File => settle(rest, found.push(next.path), names),
                EntryKind::Other => settle(rest, found, names),
            }
        }
    }
}

/// A listing laid on top of what is still to do, so that its first entry is
/// looked at first.
pub open spec fn stacked(pending: Seq<EntryView>, listing: Seq<EntryView>) -> Seq<EntryView> {
    pending + Seq::new(listing.len(), |j: int| listing[listing.len() - 1 - j])
}

/// No recorded path has an excluded component.
pub open spec fn all_in_scope(found: Seq<Seq<char>>, names: Seq<Seq<char>>) -> bool {
    forall|i: int| 0 <= i < found.len() ==> !excluded(#[trigger] found[i], names)
}

/// Going on never asks for an excluded directory, keeps what was recorded,
/// and ends only when nothing is left to look at.
pub proof fn lemma_settle_asks_in_scope(
    pending: Seq<EntryView>,
    found: Seq<Seq<char>>,
    names: Seq<Seq<char>>,
)
    ensures
        found.len() <= settle(pending, found, names).found.len(),
        forall|i: int| 0 <= i < found.len() ==> settle(pending, found, names).found[i] == found[i],
        settle(pending, found, names).ask matches Some(dir) ==> !excluded(dir, names),
        settle(pending, found, names).ask is None ==> settle(pending, found, names).pending.len() == 0,
    decreases pending.len(),
{
    if pending.len() > 0 {
        let next = pending.last();
        let rest = pending.drop_last();
        if excluded(next.path, names) {
            lemma_settle_asks_in_scope(rest, found, names);
        } else {
            match next.kind {
                EntryKind::Directory => {},
                EntryKind::File => {
                    let more = found.push(next.path);
                    lemma_settle_asks_in_scope(rest, more, names);
                    assert forall|i: int| 0 <= i < found.len() implies settle(
                        pending,
                        found,
                        names,
                    ).found[i] == found[i] by {
                        assert(more[i] == found[i]);
                    }
                },
                EntryKind::Other => {
                    lemma_settle_asks_in_scope(rest, found, names);
                },
            }
        }
    }
}

/// Going on keeps every recorded path in scope: no path with an excluded
/// component is ever recorded.
pub proof fn lemma_settle_in_scope(pending: Seq<EntryView>, found: Seq<Seq<char>>, names: Seq<Seq<char>>)
    requires
        all_in_scope(found, names),
    ensures
        all_in_scope(settle(pending, found, names).found, names),
    decreases pending.len(),
{
    if pending.len() > 0 {
        let next = pending.last();
        let rest = pending.drop_last();
        if excluded(next.path, names) {
            lemma_settle_in_scope(rest, found, names);
        } else {
            match next.kind {
                EntryKind::Directory => {},
                EntryKind::File => {
                    lemma_settle_in_scope(rest, found.push(next.path), names);
                },
                EntryKind::Other => {
                    lemma_settle_in_scope(rest, found, names);
                },
            }
        }
    }
}

/// An excluded entry leaves no trace, whatever its kind: a directory among
/// them is never listed, so nothing below it is ever seen.
pub proof fn lemma_excluded_entry_dropped(
    pending: Seq<EntryView>,
    entry: EntryView,
    found: Seq<Seq<char>>,
    names: Seq<Seq<char>>,
)
    requires
        excluded(entry.path, names),
    ensures
        settle(pending.push(entry), found, names) == settle(pending, found, names),
{
    assert(pending.push(entry).drop_last() =~= pending);
}

/// Pruning: where every recorded path is in scope, none of them lies below
/// an excluded directory, however much that directory holds.
pub proof fn lemma_nothing_below_excluded(
    found: Seq<Seq<char>>,
    names: Seq<Seq<char>>,
    dir: Seq<char>,
)
    requires
        all_in_scope(found, names),
        excluded(dir, names),
    ensures
        forall|i: int| 0 <= i < found.len() ==> !below(#[trigger] found[i], dir),
{
    assert forall|i: int| 0 <= i < found.len() implies !below(#[trigger] found[i], dir) by {
        if below(found[i], dir) {
            lemma_excluded_below(found[i], dir, names);
        }
    }
}

/// The state of one walk.
#[derive(Debug)]
pub struct Walker {
    names: Vec<String>,
    pending: Vec<Entry>,
    files: Vec<String>,
}

impl Walker {
    /// The excluded names.
    pub closed spec fn names(&self) -> Seq<Seq<char>> {
        texts(self.names@)
    }

    /// The entries still to look at, the next one last.
    pub closed spec fn pending(&self) -> Seq<EntryView> {
        entry_views(self.pending@)
    }

    /// The files recorded so far.
    pub closed spec fn found(&self) -> Seq<Seq<char>> {
        texts(self.files@)
    }

    /// Every recorded path is in scope.
    pub open spec fn wf(&self) -> bool {
        all_in_scope(self.found(), self.names())
    }

    /// A walk that has seen nothing yet.
    pub fn new(names: Vec<String>) -> (w: Walker)
        ensures
            w.names() == texts(names@),
            w.pending() == Seq::<EntryView>::empty(),
            w.found() == Seq::<Seq<char>>::empty(),
            w.wf(),
    {
        let w = Walker { names, pending: Vec::new(), files: Vec::new() };
        proof {
            assert(w.pending() =~= Seq::<EntryView>::empty());
            assert(w.found() =~= Seq::<Seq<char>>::empty());
        }
        w
    }

    /// Takes the listing of a directory: its entries are looked at before
    /// anything that was waiting, the first of them first.
    pub fn supply(&mut self, listing: Vec<Entry>)
        ensures
            final(self).pending() == stacked(old(self).pending(), entry_views(listing@)),
            final(self).found() == old(self).found(),
            final(self).names() == old(self).names(),
            old(self).wf() ==> final(self).wf(),
    {
        let mut listing = listing;
        let ghost given = entry_views(listing@);
        let ghost before = self.pending();
        while listing.len() > 0
            invariant
                listing@.len() <= given.len(),
                entry_views(listing@) == given.take(listing@.len() as int),
                self.pending() == before + Seq::new(
                    (given.len() - listing@.len()) as nat,
                    |j: int| given[given.len() - 1 - j],
                ),
                self.found() == old(self).found(),
                self.names() == old(self).names(),
            decreases listing.len(),
        {
            let ghost prev = listing@;
            let ghost prev_pending = self.pending@;
            let entry = listing.pop().unwrap();
            proof {
                assert(entry_views(prev)[prev.len() - 1] == entry@);
                assert(entry_views(listing@) =~= given.take(listing@.len() as int));
                assert(entry_views(prev_pending.push(entry)) =~= entry_views(prev_pending).push(entry@));
                assert(entry_views(prev_pending).push(entry@) =~= before + Seq::new(
                    (given.len() - listing@.len()) as nat,
                    |j: int| given[given.len() - 1 - j],
                ));
            }
            self.pending.push(entry);
        }
    }

    /// Takes what came of listing `dir`. A listing is laid on what was
    /// waiting, as `supply` does. A failure ends the walk at once with that
    /// directory and its cause: the walk is given up, so that no other
    /// directory is asked for and nothing more is recorded or handed out.
    pub fn resume(self, dir: String, listing: Result<Vec<Entry>, String>) -> (next: Result<
        Walker,
        WalkError,
    >)
        ensures
            listing matches Ok(entries) ==> next matches Ok(w) && w.pending() == stacked(
                self.pending(),
                entry_views(entries@),
            ) && w.found() == self.found() && w.names() == self.names() && (self.wf() ==> w.wf()),
            listing matches Err(cause) ==> next matches Err(e) && e@ == (WalkErrorView {
                dir: dir@,
                cause: cause@,
            }),
    {
        match listing {
            Ok(entries) => {
                let mut walker = self;
                walker.supply(entries);
                Ok(walker)
            },
            Err(cause) => Err(WalkError { dir, cause }),
        }
    }

    /// Goes on until a directory has to be listed or the walk is over.
    pub fn advance(&mut self) -> (step: Step)
        ensures
            final(self).pending() == settle(old(self).pending(), old(self).found(), old(self).names()).pending,
            final(self).found() == settle(old(self).pending(), old(self).found(), old(self).names()).found,
            step_ask(step) == settle(old(self).pending(), old(self).found(), old(self).names()).ask,
            final(self).names() == old(self).names(),
            old(self).wf() ==> final(self).wf(),
            step matches Step::List(dir) ==> !excluded(dir@, final(self).names()),
            step is Done ==> final(self).pending().len() == 0,
    {
        proof {
            lemma_settle_asks_in_scope(self.pending(), self.found(), self.names());
            if self.wf() {
                lemma_settle_in_scope(self.pending(), self.found(), self.names());
            }
        }
        let ghost goal = settle(self.pending(), self.found(), self.names());
        while self.pending.len() > 0
            invariant
                self.names() == old(self).names(),
                goal == settle(old(self).pending(), old(self).found(), old(self).names()),
                settle(self.pending(), self.found(), self.names()) == goal,
                old(self).wf() ==> all_in_scope(goal.found, self.names()),
                goal.ask matches Some(dir) ==> !excluded(dir, self.names()),
                goal.ask is None ==> goal.pending.len() == 0,
            decreases self.pending.len(),
        {
            let ghost prev_pending = self.pending@;
            let ghost prev_files = self.files@;
            let entry = self.pending.pop().unwrap();
            proof {
                assert(entry_views(prev_pending).last() == entry@);
                assert(entry_views(prev_pending).drop_last() =~= entry_views(self.pending@));
            }
            if !is_excluded(entry.path.as_str(), &self.names) {
                match entry.kind {
                    EntryKind::Directory => {
                        return Step::List(entry.path);
                    },
                    EntryKind::File => {
                        proof {
                            assert(texts(prev_files.push(entry.path)) =~= texts(prev_files).push(
                                entry.path@,
                            ));
                        }
                        self.files.push(entry.path);
                    },
                    EntryKind::Other => {},
                }
            }
        }
        Step::Done
    }

    /// The files recorded so far, in the order they were met.
    pub fn files(&self) -> (files: &Vec<String>)
        ensures
            texts(files@) == self.found(),
    {
        &self.files
    }

    /// Ends the walk and hands out what it recorded.
    pub fn into_files(self) -> (files: Vec<String>)
        ensures
            texts(files@) == self.found(),
    {
        self.files
    }
}

/// The directory that a step asks for, if any.
pub open spec fn step_ask(step: Step) -> Option<Seq<char>> {
    match step {
        Step::List(dir) => Some(dir@),
        Step::Done => None,
    }
}

} // verus!
