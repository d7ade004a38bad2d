//! Which files of the base directory are roster files, and the identifier
//! that each is published under.

use crate::text::{chars_of, contains, find_last, last_index_of, occurs, string_of};
use vstd::prelude::*;

verus! {

/// One entry of the base directory, as the listing gives it.
#[derive(Debug, PartialEq, Eq)]
pub struct DirItem {
    pub name: String,
    /// Whether the entry is a regular file.
    pub is_file: bool,
}

/// Whether a file name marks a roster file: it holds `team`, in lower case.
pub open spec fn is_team_name(name: Seq<char>) -> bool {
    contains(name, "team"@)
}

/// The identifier of a file: its name up to the last `.`, and the whole name
/// where it has none.
pub open spec fn stem(name: Seq<char>) -> Seq<char> {
    let k = last_index_of(name, '.');
    if k >= 0 {
        name.take(k)
    } else {
        name
    }
}

/// Whether a directory entry is a roster file.
pub open spec fn is_roster_file(item: DirItem) -> bool {
    item.is_file && is_team_name(item.name@)
}

/// The names of the roster files among the entries, in the order of the
/// listing.
pub open spec fn roster_files(items: Seq<DirItem>) -> Seq<Seq<char>>
    decreases items.len(),
{
    if items.len() == 0 {
        Seq::<Seq<char>>::empty()
    } else {
        let before = roster_files(items.drop_last());
        if is_roster_file(items.last()) {
            before.push(items.last().name@)
        } else {
            before
        }
    }
}

/// The names as sequences of characters.
pub open spec fn names(files: Seq<String>) -> Seq<Seq<char>> {
    Seq::new(files.len(), |i: int| files[i]@)
}

/// Whether `name` marks a roster file.
pub fn is_team_file(name: &str) -> (b: bool)
    ensures
        b == is_team_name(name@),
{
    let hay = chars_of(name);
    let needle = chars_of("team");
    occurs(&hay, &needle)
}

/// The identifier that the file `file_name` is published under.
pub fn team_id(file_name: &str) -> (id: String)
    ensures
        id@ == stem(file_name@),
{
    let v = chars_of(file_name);
    match find_last(&v, '.') {
        Some(k) => {
            let id = string_of(&v, 0, k);
            assert(v@.subrange(0, k as int) =~= v@.take(k as int));
            id
        },
        None => {
            let id = string_of(&v, 0, v.len());
            assert(v@.subrange(0, v.len() as int) =~= v@);
            id
        },
    }
}

/// The names of the roster files among the entries of the base directory.
pub fn team_files(items: &Vec<DirItem>) -> (files: Vec<String>)
    ensures
        names(files@) == roster_files(items@),
{
    let mut files: Vec<String> = Vec::new();
    let mut i: usize = 0;
    assert(items@.take(0) =~= Seq::<DirItem>::empty());
    while i < items.len()
        invariant
            i <= items.len(),
            names(files@) == roster_files(items@.take(i as int)),
        decreases items.len() - i,
    {
        proof {
            assert(items@.take(i + 1).drop_last() =~= items@.take(i as int));
        }
        if items[i].is_file && is_team_file(items[i].name.as_str()) {
            let ghost before = names(files@);
            files.push(items[i].name.clone());
            assert(names(files@) =~= before.push(items@[i as int].name@));
        }
        i += 1;
    }
    assert(items@.take(i as int) =~= items@);
    files
}

/// Whether entry `i` of the listing is a roster file of the given name.
pub open spec fn listed_at(items: Seq<DirItem>, i: int, name: Seq<char>) -> bool {
    0 <= i < items.len() && is_roster_file(items[i]) && items[i].name@ == name
}

/// Whether the listing holds a roster file of the given name.
pub open spec fn is_listed(items: Seq<DirItem>, name: Seq<char>) -> bool {
    exists|i: int| listed_at(items, i, name)
}

/// Every name that `roster_files` gives is the name of a roster file of the
/// listing, and every roster file of the listing is given.
pub proof fn lemma_roster_files(items: Seq<DirItem>)
    ensures
        forall|j: int|
            0 <= j < roster_files(items).len() ==> is_listed(
                items,
                #[trigger] roster_files(items)[j],
            ),
        forall|i: int|
            0 <= i < items.len() && is_roster_file(#[trigger] items[i]) ==> roster_files(
                items,
            ).contains(items[i].name@),
    decreases items.len(),
{
    if items.len() > 0 {
        let head = items.drop_last();
        lemma_roster_files(head);
        let out = roster_files(items);
        assert forall|j: int| 0 <= j < out.len() implies is_listed(items, #[trigger] out[j]) by {
            if j < roster_files(head).len() {
                let i = choose|i: int| listed_at(head, i, roster_files(head)[j]);
                assert(items[i] == head[i]);
                assert(listed_at(items, i, out[j]));
            } else {
                assert(listed_at(items, items.len() - 1, out[j]));
            }
        }
        assert forall|i: int| 0 <= i < items.len() && is_roster_file(
            #[trigger] items[i],
        ) implies out.contains(items[i].name@) by {
            if i < head.len() {
                assert(head[i] == items[i]);
                let j = choose|j: int|
                    0 <= j < roster_files(head).len() && roster_files(head)[j] == head[i].name@;
                assert(out[j] == items[i].name@);
            } else {
                assert(out[out.len() - 1] == items[i].name@);
            }
        }
    }
}

} // verus!
