//! Discovery of process directories: of the entries of a directory listing,
//! the directories with an all-digit name stand for processes. Entries that
//! could not be read are passed on as failures of their own.

use vstd::prelude::*;
use crate::text::{all_digits, is_all_digits};

verus! {

/// One process directory found in the listing.
#[derive(Debug)]
pub struct ProcessHandle {
    /// The directory's name: the process id as text.
    pub name: String,
}

/// One entry of the listing, as the directory reader handed it over.
#[derive(Debug)]
pub enum ListedEntry {
    /// An entry that was read. `name` is `None` where its base name is not
    /// valid UTF-8; `is_dir` says whether it is a directory.
    Entry { name: Option<String>, is_dir: bool },
    /// An entry that could not be read.
    Unreadable(std::io::Error),
}

/// A name that stands for a process: non-empty and all digits.
pub open spec fn is_process_name(name: Seq<char>) -> bool {
    name.len() > 0 && all_digits(name)
}

/// What one entry contributes to the sequence of items: a handle for a
/// process directory, the failure for an unreadable entry, nothing otherwise.
pub open spec fn item_of(e: ListedEntry) -> Option<Result<ProcessHandle, std::io::Error>> {
    match e {
        ListedEntry::Entry { name, is_dir } => {
            if is_dir && name is Some && is_process_name(name->0@) {
                Some(Ok(ProcessHandle { name: name->0 }))
            } else {
                None
            }
        },
        ListedEntry::Unreadable(err) => Some(Err(err)),
    }
}

/// The items of a listing, in listing order.
pub open spec fn items_of(s: Seq<ListedEntry>) -> Seq<Result<ProcessHandle, std::io::Error>>
    decreases s.len(),
{
    if s.len() == 0 {
        Seq::empty()
    } else {
        match item_of(s[0]) {
            Some(x) => seq![x] + items_of(s.drop_first()),
            None => items_of(s.drop_first()),
        }
    }
}

/// The items of a listing are those of its parts, one after the other.
pub proof fn lemma_items_of_concat(a: Seq<ListedEntry>, b: Seq<ListedEntry>)
    ensures
        items_of(a + b) == items_of(a) + items_of(b),
    decreases a.len(),
{
    if a.len() == 0 {
        assert(a + b =~= b);
        assert(items_of(a) + items_of(b) =~= items_of(b));
    } else {
        assert((a + b).drop_first() =~= a.drop_first() + b);
        lemma_items_of_concat(a.drop_first(), b);
        match item_of(a[0]) {
            Some(x) => {
                assert(seq![x] + (items_of(a.drop_first()) + items_of(b)) =~= (seq![x]
                    + items_of(a.drop_first())) + items_of(b));
            },
            None => {},
        }
    }
}

/// A directory whose name is all digits yields its handle at its place in the
/// listing.
pub proof fn lemma_process_dir_is_listed(
    before: Seq<ListedEntry>,
    name: String,
    after: Seq<ListedEntry>,
)
    requires
        is_process_name(name@),
    ensures
        items_of(before + seq![ListedEntry::Entry { name: Some(name), is_dir: true }] + after)
            == items_of(before) + seq![Ok::<ProcessHandle, std::io::Error>(ProcessHandle { name })]
            + items_of(after),
{
    let e = ListedEntry::Entry { name: Some(name), is_dir: true };
    lemma_items_of_concat(before + seq![e], after);
    lemma_items_of_concat(before, seq![e]);
    assert(seq![e].drop_first() =~= Seq::<ListedEntry>::empty());
    assert(items_of(seq![e].drop_first()) =~= Seq::empty());
    assert(items_of(seq![e]) =~= seq![Ok(ProcessHandle { name })]);
}

/// An entry whose name is not all digits, or that is not a directory, yields
/// nothing, and leaves the items around it as they are.
pub proof fn lemma_other_entry_is_skipped(
    before: Seq<ListedEntry>,
    name: Option<String>,
    is_dir: bool,
    after: Seq<ListedEntry>,
)
    requires
        !is_dir || name is None || !is_process_name(name->0@),
    ensures
        items_of(before + seq![ListedEntry::Entry { name, is_dir }] + after) == items_of(before)
            + items_of(after),
{
    let e = ListedEntry::Entry { name, is_dir };
    lemma_items_of_concat(before + seq![e], after);
    lemma_items_of_concat(before, seq![e]);
    assert(seq![e].drop_first() =~= Seq::<ListedEntry>::empty());
    assert(items_of(seq![e].drop_first()) =~= Seq::empty());
    assert(items_of(seq![e]) =~= Seq::empty());
    assert(items_of(before) + Seq::empty() =~= items_of(before));
}

/// An unreadable entry yields its failure at its place, and the entries after
/// it are still yielded.
pub proof fn lemma_unreadable_entry_is_forwarded(
    before: Seq<ListedEntry>,
    err: std::io::Error,
    after: Seq<ListedEntry>,
)
    ensures
        items_of(before + seq![ListedEntry::Unreadable(err)] + after) == items_of(before) + seq![
            Err::<ProcessHandle, std::io::Error>(err),
        ] + items_of(after),
{
    let e = ListedEntry::Unreadable(err);
    lemma_items_of_concat(before + seq![e], after);
    lemma_items_of_concat(before, seq![e]);
    assert(seq![e].drop_first() =~= Seq::<ListedEntry>::empty());
    assert(items_of(seq![e].drop_first()) =~= Seq::empty());
    assert(items_of(seq![e]) =~= seq![Err(err)]);
}

/// Whether an entry with this base name and kind stands for a process.
pub fn is_process_subdir(name: Option<&str>, is_dir: bool) -> (r: bool)
    ensures
        r == (is_dir && match name {
            Some(n) => is_process_name(n@),
            None => false,
        }),
{
    match name {
        Some(n) => is_dir && !n.is_empty() && is_all_digits(n),
        None => false,
    }
}

/// `s` back to front.
pub open spec fn reversed(s: Seq<ListedEntry>) -> Seq<ListedEntry> {
    Seq::new(s.len(), |i: int| s[s.len() - 1 - i])
}

/// Hands out the items of a listing one at a time, in listing order.
pub struct ProcessEnumerator {
    /// The entries not looked at yet, the next one last.
    pending: Vec<ListedEntry>,
}

impl ProcessEnumerator {
    /// The entries not looked at yet, in listing order.
    pub closed spec fn remaining(&self) -> Seq<ListedEntry> {
        reversed(self.pending@)
    }

    /// The items still to come.
    pub open spec fn items(&self) -> Seq<Result<ProcessHandle, std::io::Error>> {
        items_of(self.remaining())
    }

    /// An enumerator over the entries of `listing`.
    pub fn new(listing: Vec<ListedEntry>) -> (r: Self)
        ensures
            r.remaining() == listing@,
            r.items() == items_of(listing@),
    {
        let ghost whole = listing@;
        let mut listing = listing;
        let mut pending: Vec<ListedEntry> = Vec::new();
        while listing.len() > 0
            invariant
                listing@ + reversed(pending@) == whole,
            decreases listing@.len(),
        {
            let ghost before = listing@;
            let ghost rest = reversed(pending@);
            let e = listing.pop().unwrap();
            pending.push(e);
            assert(reversed(pending@) =~= seq![e] + rest);
            assert(listing@ + reversed(pending@) =~= before + rest);
        }
        assert(listing@ + reversed(pending@) =~= reversed(pending@));
        ProcessEnumerator { pending }
    }

    /// The next item: a handle for the next process directory, or the failure
    /// of the next unreadable entry; `None` once the listing is used up.
    pub fn next_item(&mut self) -> (r: Option<Result<ProcessHandle, std::io::Error>>)
        ensures
            old(self).items().len() == 0 ==> r is None && final(self).items().len() == 0,
            old(self).items().len() > 0 ==> r == Some(old(self).items()[0]),
            old(self).items().len() > 0 ==> final(self).items() == old(self).items().drop_first(),
    {
        let ghost start = self.items();
        loop
            invariant
                start == old(self).items(),
                self.items() == start,
            decreases self.pending@.len(),
        {
            let ghost before = self.remaining();
            match self.pending.pop() {
                None => {
                    assert(self.remaining() =~= Seq::<ListedEntry>::empty());
                    assert(items_of(self.remaining()).len() == 0);
                    return None;
                },
                Some(e) => {
                    assert(before[0] == e);
                    assert(self.remaining() =~= before.drop_first());
                    assert(items_of(before) == match item_of(e) {
                        Some(x) => seq![x] + items_of(self.remaining()),
                        None => items_of(self.remaining()),
                    });
                    match e {
                        ListedEntry::Unreadable(err) => {
                            return Some(Err(err));
                        },
                        ListedEntry::Entry { name, is_dir } => {
                            match name {
                                Some(n) => {
                                    if is_process_subdir(Some(n.as_str()), is_dir) {
                                        return Some(Ok(ProcessHandle { name: n }));
                                    }
                                },
                                None => {},
                            }
                        },
                    }
                },
            }
        }
    }
}

} // verus!
