//! The debounced reload: what is published once a change has settled.
//!
//! After the settle delay the roster files are read again, whatever the
//! notifications said. Where each identifier holds the text that was last
//! published for it, nothing is published; otherwise the texts are parsed
//! and the new roster set is published.

use crate::discovery::{stem, team_id};
use crate::hub::Hub;
use crate::roster_set::{parse_all, rosters_of, same_texts, RosterSet, RosterSetView};
use crate::table::Table;
use vstd::prelude::*;

verus! {

/// A roster file as it was read: its name, and its text where it could be
/// read.
#[derive(Debug, PartialEq, Eq)]
pub struct SourceFile {
    pub name: String,
    pub content: Option<String>,
}

/// The texts of the files by identifier. A file that could not be read
/// gives no entry; of two files with one identifier the later counts.
pub open spec fn contents_of(files: Seq<SourceFile>) -> Map<Seq<char>, Seq<char>>
    decreases files.len(),
{
    if files.len() == 0 {
        Map::<Seq<char>, Seq<char>>::empty()
    } else {
        let before = contents_of(files.drop_last());
        match files.last().content {
            Some(text) => before.insert(stem(files.last().name@), text@),
            None => before,
        }
    }
}

/// Whether file `i` could be read and has `id` as its identifier.
pub open spec fn holds_text(files: Seq<SourceFile>, i: int, id: Seq<char>) -> bool {
    0 <= i < files.len() && files[i].content is Some && stem(files[i].name@) == id
}

/// What a reload leaves behind: the texts that now count as published, and
/// the roster set to publish, if any.
pub struct ReloadView {
    pub published: Option<Map<Seq<char>, Seq<char>>>,
    pub publish: Option<RosterSetView>,
}

/// What a reload does, given the texts that were last published and the
/// texts that were read now: the same texts publish nothing and change
/// nothing; other texts are published as rosters and remembered.
pub open spec fn spec_reload(
    published: Option<Map<Seq<char>, Seq<char>>>,
    now: Map<Seq<char>, Seq<char>>,
) -> ReloadView {
    if published == Some(now) {
        ReloadView { published, publish: None }
    } else {
        ReloadView { published: Some(now), publish: Some(rosters_of(now)) }
    }
}

/// The reload controller: it remembers the texts that were last published.
#[derive(Debug)]
pub struct Reloader {
    published: Option<Table<String>>,
}

/// The texts of the files by identifier.
pub fn read_contents(files: &Vec<SourceFile>) -> (texts: Table<String>)
    ensures
        texts.wf(),
        texts@ == contents_of(files@),
{
    let mut texts: Table<String> = Table::new();
    let mut i: usize = 0;
    assert(files@.take(0) =~= Seq::<SourceFile>::empty());
    while i < files.len()
        invariant
            i <= files.len(),
            texts.wf(),
            texts@ == contents_of(files@.take(i as int)),
        decreases files.len() - i,
    {
        proof {
            assert(files@.take(i + 1).drop_last() =~= files@.take(i as int));
        }
        match &files[i].content {
            Some(text) => {
                texts.insert(team_id(files[i].name.as_str()), text.clone());
            },
            None => {},
        }
        i += 1;
    }
    assert(files@.take(i as int) =~= files@);
    texts
}

impl Reloader {
    /// The texts that were last published, by identifier; `None` before the
    /// first publish.
    pub closed spec fn published(&self) -> Option<Map<Seq<char>, Seq<char>>> {
        match self.published {
            Some(texts) => Some(texts@),
            None => None,
        }
    }

    /// What every controller keeps: the remembered texts are a table in
    /// good order.
    pub closed spec fn wf(&self) -> bool {
        match self.published {
            Some(texts) => texts.wf(),
            None => true,
        }
    }

    /// A controller that has published nothing yet.
    pub fn new() -> (r: Self)
        ensures
            r.wf(),
            r.published() is None,
    {
        Reloader { published: None }
    }

    /// Takes the files as they were read after the settle delay, and gives
    /// the roster set to publish; `None` where nothing is to be published.
    pub fn reload(&mut self, files: &Vec<SourceFile>) -> (publish: Option<RosterSet>)
        requires
            old(self).wf(),
        ensures
            final(self).wf(),
            final(self).published() == spec_reload(
                old(self).published(),
                contents_of(files@),
            ).published,
            match publish {
                Some(set) => set.wf() && spec_reload(
                    old(self).published(),
                    contents_of(files@),
                ).publish == Some(set@),
                None => spec_reload(old(self).published(), contents_of(files@)).publish is None,
            },
    {
        let texts = read_contents(files);
        let unchanged = match &self.published {
            Some(last) => same_texts(last, &texts),
            None => false,
        };
        if unchanged {
            None
        } else {
            let set = parse_all(&texts);
            self.published = Some(texts);
            Some(set)
        }
    }

    /// Takes the files as they were read after the settle delay, and
    /// publishes on the hub what `reload` gives. Says whether it published.
    pub fn settle(&mut self, hub: &mut Hub, files: &Vec<SourceFile>) -> (published: bool)
        requires
            old(self).wf(),
            old(hub).wf(),
        ensures
            final(self).wf(),
            final(hub).wf(),
            final(self).published() == spec_reload(
                old(self).published(),
                contents_of(files@),
            ).published,
            match spec_reload(old(self).published(), contents_of(files@)).publish {
                Some(set) => published && final(hub)@ == old(hub)@.publish(set),
                None => !published && final(hub)@ == old(hub)@,
            },
    {
        match self.reload(files) {
            Some(set) => {
                hub.publish(set);
                true
            },
            None => false,
        }
    }
}

/// Files that hold the texts that were last published publish nothing, and
/// the controller is left as it is.
pub proof fn lemma_unchanged_is_silent(now: Map<Seq<char>, Seq<char>>)
    ensures
        spec_reload(Some(now), now).publish is None,
        spec_reload(Some(now), now).published == Some(now),
{
}

/// A burst of changes publishes once. Where the files are read twice after
/// a change, once for each of two notifications, and hold the same texts
/// both times, the first reload publishes the rosters of those texts and
/// the second publishes nothing.
pub proof fn lemma_burst_publishes_once(
    published: Option<Map<Seq<char>, Seq<char>>>,
    now: Map<Seq<char>, Seq<char>>,
)
    requires
        published != Some(now),
    ensures
        spec_reload(published, now).publish == Some(rosters_of(now)),
        spec_reload(spec_reload(published, now).published, now).publish is None,
        spec_reload(spec_reload(published, now).published, now).published == Some(now),
{
}

/// The texts by identifier are those of the files that could be read: an
/// identifier has a text where a readable file has it as its stem, and the
/// text is that of the last such file.
pub proof fn lemma_contents_of(files: Seq<SourceFile>, id: Seq<char>)
    ensures
        contents_of(files).contains_key(id) <==> exists|i: int| holds_text(files, i, id),
        forall|i: int|
            holds_text(files, i, id) && (forall|j: int| i < j < files.len() ==> !holds_text(
                files,
                j,
                id,
            )) ==> contents_of(files)[id] == files[i].content->0@,
    decreases files.len(),
{
    if files.len() > 0 {
        let head = files.drop_last();
        let last = files.len() - 1;
        lemma_contents_of(head, id);
        if contents_of(files).contains_key(id) {
            if holds_text(files, last, id) {
            } else {
                let i = choose|i: int| holds_text(head, i, id);
                assert(holds_text(files, i, id));
            }
        }
        if exists|i: int| holds_text(files, i, id) {
            let i = choose|i: int| holds_text(files, i, id);
            if i < last {
                assert(holds_text(head, i, id));
            }
        }
        assert forall|i: int|
            holds_text(files, i, id) && (forall|j: int|
                i < j < files.len() ==> !holds_text(files, j, id)) implies contents_of(files)[id]
            == files[i].content->0@ by {
            if i < last {
                assert(holds_text(head, i, id));
                assert(!holds_text(files, last, id));
                assert forall|j: int| i < j < head.len() implies !holds_text(head, j, id) by {
                    assert(!holds_text(files, j, id));
                }
            }
        }
    }
}

} // verus!
