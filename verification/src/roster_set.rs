//! The set of rosters that is published: one roster for each identifier.

use crate::roster::{parse, spec_parse, EntryView, Roster};
use crate::table::{lemma_map_of, lemma_map_of_values, map_of, Table};
use vstd::prelude::*;

verus! {

/// Rosters by identifier.
pub type RosterSet = Table<Roster>;

/// What a roster set holds: for each identifier the six entries of its
/// roster.
pub type RosterSetView = Map<Seq<char>, Seq<EntryView>>;

/// The rosters that the texts hold, identifier by identifier.
pub open spec fn rosters_of(texts: Map<Seq<char>, Seq<char>>) -> RosterSetView {
    texts.map_values(|text: Seq<char>| spec_parse(text))
}

/// A roster set with the same rosters under the same identifiers.
pub fn clone_set(set: &RosterSet) -> (r: RosterSet)
    requires
        set.wf(),
    ensures
        r.wf(),
        r@ == set@,
        r.ids() == set.ids(),
{
    let mut r: RosterSet = Table::new();
    let mut i: usize = 0;
    let n = set.len();
    while i < n
        invariant
            set.wf(),
            r.wf(),
            n == set.ids().len(),
            i <= n,
            r.ids() == set.ids().take(i as int),
            r.values() == set.values().take(i as int),
        decreases n - i,
    {
        match set.entry(i) {
            Some((id, roster)) => {
                proof {
                    if r@.contains_key(id@) {
                        let j = choose|j: int| 0 <= j < r.ids().len() && r.ids()[j] == id@;
                        assert(set.ids()[j] == set.ids()[i as int]);
                    }
                }
                r.insert(id.clone(), roster.clone());
                assert(r.ids() =~= set.ids().take(i + 1));
                assert(r.values() =~= set.values().take(i + 1));
            },
            None => {},
        }
        i += 1;
    }
    assert(set.ids().take(n as int) =~= set.ids());
    assert(set.values().take(n as int) =~= set.values());
    r
}

/// The rosters that the texts hold, each under the identifier of its text.
pub fn parse_all(texts: &Table<String>) -> (r: RosterSet)
    requires
        texts.wf(),
    ensures
        r.wf(),
        r@ == rosters_of(texts@),
        r.ids() == texts.ids(),
{
    let mut r: RosterSet = Table::new();
    let mut i: usize = 0;
    let n = texts.len();
    let ghost parsed = Seq::new(texts.values().len(), |j: int| spec_parse(texts.values()[j]));
    while i < n
        invariant
            texts.wf(),
            r.wf(),
            n == texts.ids().len(),
            i <= n,
            parsed == Seq::new(texts.values().len(), |j: int| spec_parse(texts.values()[j])),
            r.ids() == texts.ids().take(i as int),
            r.values() == parsed.take(i as int),
        decreases n - i,
    {
        match texts.entry(i) {
            Some((id, text)) => {
                proof {
                    if r@.contains_key(id@) {
                        let j = choose|j: int| 0 <= j < r.ids().len() && r.ids()[j] == id@;
                        assert(texts.ids()[j] == texts.ids()[i as int]);
                    }
                }
                r.insert(id.clone(), parse(text.as_str()));
                assert(r.ids() =~= texts.ids().take(i + 1));
                assert(r.values() =~= parsed.take(i + 1));
            },
            None => {},
        }
        i += 1;
    }
    proof {
        assert(texts.ids().take(n as int) =~= texts.ids());
        assert(parsed.take(n as int) =~= parsed);
        lemma_map_of_values(texts.ids(), texts.values(), |text: Seq<char>| spec_parse(text));
    }
    r
}

/// Whether two tables of texts hold the same text under each identifier.
pub fn same_texts(a: &Table<String>, b: &Table<String>) -> (same: bool)
    requires
        a.wf(),
        b.wf(),
    ensures
        same == (a@ == b@),
{
    let mut i: usize = 0;
    while i < a.len()
        invariant
            a.wf(),
            b.wf(),
            i <= a.ids().len(),
            forall|j: int|
                0 <= j < i ==> b@.contains_key(#[trigger] a.ids()[j]) && b@[a.ids()[j]]
                    == a.values()[j],
        decreases a.ids().len() - i,
    {
        match a.entry(i) {
            Some((id, text)) => {
                match b.get(id.as_str()) {
                    Some(other) => {
                        if *other != *text {
                            return false;
                        }
                    },
                    None => {
                        return false;
                    },
                }
            },
            None => {},
        }
        i += 1;
    }
    let mut k: usize = 0;
    while k < b.len()
        invariant
            a.wf(),
            b.wf(),
            k <= b.ids().len(),
            forall|j: int| 0 <= j < k ==> a@.contains_key(#[trigger] b.ids()[j]),
        decreases b.ids().len() - k,
    {
        match b.entry(k) {
            Some((id, text)) => {
                if a.get(id.as_str()).is_none() {
                    return false;
                }
            },
            None => {},
        }
        k += 1;
    }
    proof {
        assert forall|key: Seq<char>| a@.contains_key(key) implies b@.contains_key(key) && a@[key]
            == b@[key] by {
            let j = choose|j: int| 0 <= j < a.ids().len() && a.ids()[j] == key;
            lemma_map_of(a.ids(), a.values(), j);
        }
        assert forall|key: Seq<char>| b@.contains_key(key) implies a@.contains_key(key) by {
            let j = choose|j: int| 0 <= j < b.ids().len() && b.ids()[j] == key;
            assert(a@.contains_key(b.ids()[j]));
        }
        assert(a@ =~= b@);
    }
    true
}

} // verus!
