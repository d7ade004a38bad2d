//! The roster: six slots read from the lines of a roster file.
//!
//! A roster file holds one entry per line, `name` or `name:nickname`. Each
//! line is trimmed and cut at its first `:`; in what follows it every further
//! `:` stands for a space. Lines without a name are passed over. The first
//! six entries fill the slots, and vacant entries fill what is left.

use crate::text::{
    chars_of, find, index_of, is_whitespace, lemma_index_of, lemma_index_of_is, lemma_split_first,
    lemma_split_pieces, lemma_trim, lemma_trim_fixed, replace, replaced_string_of, split,
    string_of, trim, trim_bounds,
};
use vstd::prelude::*;

verus! {

/// The number of slots of a roster.
pub const SLOTS: usize = 6;

/// One slot of a roster. An entry with an empty name is vacant.
#[derive(Debug, PartialEq, Eq)]
pub struct RosterEntry {
    pub name: String,
    pub nickname: Option<String>,
}

/// What an entry holds, as sequences of characters.
pub struct EntryView {
    pub name: Seq<char>,
    pub nickname: Option<Seq<char>>,
}

impl View for RosterEntry {
    type V = EntryView;

    open spec fn view(&self) -> EntryView {
        EntryView {
            name: self.name@,
            nickname: match self.nickname {
                Some(n) => Some(n@),
                None => None,
            },
        }
    }
}

/// The entry that pads a roster: no name, no nickname.
pub open spec fn vacant_entry() -> EntryView {
    EntryView { name: Seq::<char>::empty(), nickname: None }
}

/// Whether an entry has a name.
pub open spec fn occupied(e: EntryView) -> bool {
    e.name.len() > 0
}

/// What one line of a roster file says: the trimmed line up to its first `:`
/// is the name; what follows that `:`, with every further `:` turned into a
/// space, is the nickname. A line without `:` has no nickname.
pub open spec fn line_entry(line: Seq<char>) -> EntryView {
    let t = trim(line);
    let k = index_of(t, ':');
    if 0 <= k < t.len() {
        EntryView { name: t.take(k), nickname: Some(replace(t.skip(k + 1), ':', ' ')) }
    } else {
        EntryView { name: t, nickname: None }
    }
}

/// The entries that the lines say, one for each line.
pub open spec fn line_entries(lines: Seq<Seq<char>>) -> Seq<EntryView> {
    Seq::new(lines.len(), |i: int| line_entry(lines[i]))
}

/// The entries that have a name, in their order.
pub open spec fn occupied_of(entries: Seq<EntryView>) -> Seq<EntryView> {
    entries.filter(|e: EntryView| occupied(e))
}

/// The six slots that the entries fill: the first six that have a name, then
/// vacant entries.
pub open spec fn roster_of(entries: Seq<EntryView>) -> Seq<EntryView> {
    let kept = occupied_of(entries);
    Seq::new(SLOTS as nat, |i: int| if i < kept.len() { kept[i] } else { vacant_entry() })
}

/// The roster that a text holds.
pub open spec fn spec_parse(text: Seq<char>) -> Seq<EntryView> {
    roster_of(line_entries(split(text, '\n')))
}

/// The shape of every roster: six slots, and no entry with a name after a
/// vacant one; a vacant slot has neither name nor nickname.
pub open spec fn well_formed(r: Seq<EntryView>) -> bool {
    &&& r.len() == SLOTS
    &&& forall|i: int, j: int|
        0 <= i <= j < r.len() && !occupied(#[trigger] r[i]) ==> #[trigger] r[j] == vacant_entry()
}

/// The line that an entry is written as.
pub open spec fn entry_line(e: EntryView) -> Seq<char> {
    match e.nickname {
        Some(n) => e.name + seq![':'] + n,
        None => e.name,
    }
}

/// The text that the entries are written as: a line for each entry that has
/// a name, each ended by a line feed.
pub open spec fn entries_text(r: Seq<EntryView>) -> Seq<char>
    decreases r.len(),
{
    if r.len() == 0 {
        Seq::<char>::empty()
    } else if occupied(r[0]) {
        entry_line(r[0]) + seq!['\n'] + entries_text(r.skip(1))
    } else {
        entries_text(r.skip(1))
    }
}

/// The views of the entries, in their order.
pub open spec fn views(entries: Seq<RosterEntry>) -> Seq<EntryView> {
    Seq::new(entries.len(), |i: int| entries[i]@)
}

impl Clone for RosterEntry {
    fn clone(&self) -> (r: Self)
        ensures
            r@ == self@,
    {
        let nickname = match &self.nickname {
            Some(n) => Some(n.clone()),
            None => None,
        };
        RosterEntry { name: self.name.clone(), nickname }
    }
}

impl RosterEntry {
    /// An entry of the given name and nickname.
    pub fn new(name: &str, nickname: Option<&str>) -> (r: Self)
        ensures
            r@.name == name@,
            match nickname {
                Some(n) => r@.nickname == Some(n@),
                None => r@.nickname is None,
            },
    {
        let nickname = match nickname {
            Some(n) => Some(n.to_owned()),
            None => None,
        };
        RosterEntry { name: name.to_owned(), nickname }
    }

    /// The entry without name and nickname.
    pub fn vacant() -> (r: Self)
        ensures
            r@ == vacant_entry(),
    {
        RosterEntry { name: String::new(), nickname: None }
    }

    /// Whether the entry has no name.
    pub fn is_vacant(&self) -> (b: bool)
        ensures
            b == !occupied(self@),
    {
        self.name.as_str().is_empty()
    }

    /// The line that the entry is written as.
    pub fn to_line(&self) -> (s: String)
        ensures
            s@ == entry_line(self@),
    {
        let mut s = self.name.clone();
        match &self.nickname {
            Some(n) => {
                s.push(':');
                s.append(n.as_str());
            },
            None => {},
        }
        s
    }
}

/// Six slots, filled from the start; see `well_formed`.
#[derive(Debug, PartialEq, Eq)]
pub struct Roster {
    slots: Vec<RosterEntry>,
}

impl View for Roster {
    type V = Seq<EntryView>;

    closed spec fn view(&self) -> Seq<EntryView> {
        views(self.slots@)
    }
}

impl Clone for Roster {
    fn clone(&self) -> (r: Self)
        ensures
            r@ == self@,
    {
        proof {
            use_type_invariant(self);
        }
        let mut slots: Vec<RosterEntry> = Vec::new();
        let mut i: usize = 0;
        while i < self.slots.len()
            invariant
                i <= self.slots.len(),
                slots.len() == i,
                views(slots@) == views(self.slots@).take(i as int),
            decreases self.slots.len() - i,
        {
            let entry = self.slots[i].clone();
            let ghost before = slots@;
            slots.push(entry);
            proof {
                assert forall|j: int| 0 <= j < i implies views(slots@)[j] == views(
                    self.slots@,
                )[j] by {
                    assert(views(before)[j] == views(self.slots@).take(i as int)[j]);
                }
                assert(views(slots@) =~= views(self.slots@).take(i + 1));
            }
            i += 1;
        }
        assert(views(self.slots@).take(i as int) =~= views(self.slots@));
        Roster { slots }
    }
}

impl Roster {
    #[verifier::type_invariant]
    spec fn inv(self) -> bool {
        well_formed(views(self.slots@))
    }

    /// The roster of the entries: the first six that have a name, then vacant
    /// entries.
    pub fn from_entries(entries: &Vec<RosterEntry>) -> (r: Self)
        ensures
            r@ == roster_of(views(entries@)),
            well_formed(r@),
    {
        let mut slots: Vec<RosterEntry> = Vec::new();
        let mut i: usize = 0;
        let ghost all = views(entries@);
        proof {
            reveal(Seq::filter);
            assert(all.take(0) =~= Seq::<EntryView>::empty());
        }
        while i < entries.len() && slots.len() < SLOTS
            invariant
                i <= entries.len(),
                all == views(entries@),
                slots.len() <= SLOTS,
                views(slots@) == occupied_of(all.take(i as int)),
            decreases entries.len() - i,
        {
            proof {
                lemma_occupied_push(all.take(i as int), all[i as int]);
                assert(all.take(i as int).push(all[i as int]) =~= all.take(i + 1));
            }
            if !entries[i].is_vacant() {
                slots.push(entries[i].clone());
                assert(views(slots@) =~= occupied_of(all.take(i as int)).push(all[i as int]));
            }
            i += 1;
        }
        proof {
            assert(all =~= all.take(i as int) + all.skip(i as int));
            lemma_occupied_add(all.take(i as int), all.skip(i as int));
            if i == entries.len() {
                reveal(Seq::filter);
                assert(occupied_of(all.skip(i as int)) =~= Seq::<EntryView>::empty());
            }
            assert(views(slots@) =~= occupied_of(all).take(slots.len() as int));
        }
        fill(slots, Ghost(occupied_of(all)))
    }

    /// The number of slots, which is six.
    pub fn len(&self) -> (n: usize)
        ensures
            n == SLOTS,
            n == self@.len(),
            well_formed(self@),
    {
        proof {
            use_type_invariant(self);
        }
        self.slots.len()
    }

    /// The entry in slot `i`, for `i` below six.
    pub fn get(&self, i: usize) -> (r: Option<&RosterEntry>)
        ensures
            i < SLOTS ==> r is Some && r->0@ == self@[i as int],
            i >= SLOTS ==> r is None,
    {
        proof {
            use_type_invariant(self);
        }
        if i < self.slots.len() {
            Some(&self.slots[i])
        } else {
            None
        }
    }

    /// The six entries, in the order of their slots.
    pub fn entries(&self) -> (r: Vec<RosterEntry>)
        ensures
            views(r@) == self@,
    {
        let c = self.clone();
        c.slots
    }

    /// The number of slots that hold a name.
    pub fn occupied_len(&self) -> (n: usize)
        ensures
            n == occupied_of(self@).len(),
            n <= SLOTS,
    {
        proof {
            use_type_invariant(self);
            reveal(Seq::filter);
            assert(self@.take(0) =~= Seq::<EntryView>::empty());
        }
        let mut n: usize = 0;
        let mut i: usize = 0;
        while i < self.slots.len()
            invariant
                i <= self.slots.len() == SLOTS,
                n <= i,
                n == occupied_of(self@.take(i as int)).len(),
            decreases self.slots.len() - i,
        {
            proof {
                lemma_occupied_push(self@.take(i as int), self@[i as int]);
                assert(self@.take(i as int).push(self@[i as int]) =~= self@.take(i + 1));
            }
            if !self.slots[i].is_vacant() {
                n += 1;
            }
            i += 1;
        }
        assert(self@.take(i as int) =~= self@);
        n
    }

    /// The roster written as the text of a roster file: a line for each entry
    /// that has a name.
    pub fn to_text(&self) -> (s: String)
        ensures
            s@ == entries_text(self@),
    {
        proof {
            use_type_invariant(self);
        }
        let mut s = String::new();
        let mut i: usize = 0;
        assert(self@.skip(0) =~= self@);
        assert(s@ + entries_text(self@) =~= entries_text(self@));
        while i < self.slots.len()
            invariant
                i <= self.slots.len(),
                self@.len() == self.slots.len(),
                entries_text(self@) == s@ + entries_text(self@.skip(i as int)),
            decreases self.slots.len() - i,
        {
            let ghost before = s@;
            let ghost rest = entries_text(self@.skip(i + 1));
            proof {
                assert(self@.skip(i as int).skip(1) =~= self@.skip(i + 1));
                assert(self@.skip(i as int)[0] == self.slots@[i as int]@);
            }
            if !self.slots[i].is_vacant() {
                let line = self.slots[i].to_line();
                s.append(line.as_str());
                s.push('\n');
                assert(s@ + rest =~= before + (line@ + seq!['\n'] + rest));
            }
            i += 1;
        }
        assert(s@ + entries_text(self@.skip(i as int)) =~= s@);
        s
    }
}

/// Pads `slots` with vacant entries up to six.
fn fill(slots: Vec<RosterEntry>, Ghost(kept): Ghost<Seq<EntryView>>) -> (r: Roster)
    requires
        slots.len() <= SLOTS,
        views(slots@) == kept.take(slots.len() as int),
        slots.len() < SLOTS ==> slots.len() == kept.len(),
        slots.len() <= kept.len(),
        forall|i: int| 0 <= i < kept.len() ==> occupied(#[trigger] kept[i]),
    ensures
        r@ == Seq::new(SLOTS as nat, |i: int| if i < kept.len() { kept[i] } else { vacant_entry() }),
        well_formed(r@),
{
    let mut slots = slots;
    let ghost n = slots.len();
    while slots.len() < SLOTS
        invariant
            n <= slots.len() <= SLOTS,
            n < SLOTS ==> n == kept.len(),
            n <= kept.len(),
            views(slots@).take(n as int) == kept.take(n as int),
            forall|i: int| n <= i < slots.len() ==> (#[trigger] slots@[i])@ == vacant_entry(),
        decreases SLOTS - slots.len(),
    {
        slots.push(RosterEntry::vacant());
    }
    let ghost want = Seq::new(
        SLOTS as nat,
        |i: int| if i < kept.len() { kept[i] } else { vacant_entry() },
    );
    proof {
        assert forall|i: int| 0 <= i < SLOTS implies views(slots@)[i] == want[i] by {
            if i < n {
                assert(views(slots@).take(n as int)[i] == kept.take(n as int)[i]);
            }
        }
        assert(views(slots@) =~= want);
    }
    Roster { slots }
}

/// Reads a roster from the text of a roster file. Every text is accepted.
pub fn parse(text: &str) -> (r: Roster)
    ensures
        r@ == spec_parse(text@),
        well_formed(r@),
{
    let v = chars_of(text);
    let n = v.len();
    let mut slots: Vec<RosterEntry> = Vec::new();
    let mut pos: usize = 0;
    let mut more = true;
    let ghost mut done: Seq<Seq<char>> = Seq::empty();
    proof {
        reveal(Seq::filter);
        assert(v@.skip(0) =~= v@);
        assert(done + split(v@.skip(0), '\n') =~= split(v@, '\n'));
        assert(line_entries(done) =~= Seq::<EntryView>::empty());
    }
    while more && slots.len() < SLOTS
        invariant
            n == v.len(),
            pos <= n,
            slots.len() <= SLOTS,
            more ==> split(v@, '\n') == done + split(v@.skip(pos as int), '\n'),
            !more ==> split(v@, '\n') == done,
            views(slots@) == occupied_of(line_entries(done)),
        decreases n - pos + if more { 1int } else { 0int },
    {
        let end = find(&v, pos, n, '\n');
        let ghost line = v@.subrange(pos as int, end as int);
        let ghost rest = v@.skip(pos as int);
        proof {
            assert(v@.subrange(pos as int, n as int) =~= rest);
            assert(rest.take(end - pos) =~= line);
            lemma_occupied_push(line_entries(done), line_entry(line));
            assert(line_entries(done).push(line_entry(line)) =~= line_entries(done.push(line)));
        }
        match parse_line(&v, pos, end) {
            Some(entry) => {
                slots.push(entry);
                assert(views(slots@) =~= occupied_of(line_entries(done)).push(line_entry(line)));
            },
            None => {},
        }
        if end < n {
            proof {
                assert(rest.skip(end - pos + 1) =~= v@.skip(end + 1));
                assert(done + (seq![line] + split(v@.skip(end + 1), '\n')) =~= done.push(line)
                    + split(v@.skip(end + 1), '\n'));
            }
            pos = end + 1;
        } else {
            proof {
                assert(done + seq![line] =~= done.push(line));
            }
            more = false;
        }
        proof {
            done = done.push(line);
        }
    }
    proof {
        let tail = if more {
            split(v@.skip(pos as int), '\n')
        } else {
            Seq::<Seq<char>>::empty()
        };
        assert(split(v@, '\n') =~= done + tail);
        assert(line_entries(done + tail) =~= line_entries(done) + line_entries(tail));
        lemma_occupied_add(line_entries(done), line_entries(tail));
        if !more {
            reveal(Seq::filter);
            assert(occupied_of(line_entries(tail)) =~= Seq::<EntryView>::empty());
        }
        assert(views(slots@) =~= occupied_of(line_entries(split(v@, '\n'))).take(
            slots.len() as int,
        ));
    }
    fill(slots, Ghost(occupied_of(line_entries(split(v@, '\n')))))
}

/// The entry that `v[lo..hi]` says as a line, where it has a name.
fn parse_line(v: &Vec<char>, lo: usize, hi: usize) -> (r: Option<RosterEntry>)
    requires
        lo <= hi <= v.len(),
    ensures
        match r {
            Some(e) => e@ == line_entry(v@.subrange(lo as int, hi as int)) && occupied(e@),
            None => !occupied(line_entry(v@.subrange(lo as int, hi as int))),
        },
{
    let (a, b) = trim_bounds(v, lo, hi);
    let k = find(v, a, b, ':');
    let ghost t = v@.subrange(a as int, b as int);
    if k == a {
        proof {
            assert(t.take(0).len() == 0);
        }
        None
    } else if k < b {
        let name = string_of(v, a, k);
        let nickname = replaced_string_of(v, k + 1, b, ':', ' ');
        proof {
            assert(t.take(k - a) =~= v@.subrange(a as int, k as int));
            assert(t.skip(k - a + 1) =~= v@.subrange(k + 1, b as int));
        }
        Some(RosterEntry { name, nickname: Some(nickname) })
    } else {
        let name = string_of(v, a, b);
        Some(RosterEntry { name, nickname: None })
    }
}

/// One more entry is kept where it has a name.
pub proof fn lemma_occupied_push(entries: Seq<EntryView>, e: EntryView)
    ensures
        occupied_of(entries.push(e)) == if occupied(e) {
            occupied_of(entries).push(e)
        } else {
            occupied_of(entries)
        },
        forall|i: int| 0 <= i < occupied_of(entries).len() ==> occupied(#[trigger] occupied_of(entries)[i]),
{
    broadcast use Seq::lemma_filter_pred;
    reveal(Seq::filter);
    assert(entries.push(e).drop_last() =~= entries);
}

/// What is kept of two runs of entries is what is kept of each.
pub proof fn lemma_occupied_add(a: Seq<EntryView>, b: Seq<EntryView>)
    ensures
        occupied_of(a + b) == occupied_of(a) + occupied_of(b),
        forall|i: int| 0 <= i < occupied_of(a + b).len() ==> occupied(#[trigger] occupied_of(a + b)[i]),
{
    broadcast use Seq::lemma_filter_pred;
    Seq::filter_distributes_over_add(a, b, |e: EntryView| occupied(e));
}

/// Entries that all have a name are all kept.
pub proof fn lemma_all_occupied(entries: Seq<EntryView>)
    requires
        forall|i: int| 0 <= i < entries.len() ==> occupied(#[trigger] entries[i]),
    ensures
        occupied_of(entries) == entries,
    decreases entries.len(),
{
    reveal(Seq::filter);
    if entries.len() > 0 {
        let head = entries.drop_last();
        assert forall|i: int| 0 <= i < head.len() implies occupied(#[trigger] head[i]) by {
            assert(head[i] == entries[i]);
        }
        lemma_all_occupied(head);
        assert(head.push(entries.last()) =~= entries);
    }
}

/// Of entries without a name none is kept.
pub proof fn lemma_none_occupied(entries: Seq<EntryView>)
    requires
        forall|i: int| 0 <= i < entries.len() ==> !occupied(#[trigger] entries[i]),
    ensures
        occupied_of(entries) == Seq::<EntryView>::empty(),
    decreases entries.len(),
{
    reveal(Seq::filter);
    if entries.len() > 0 {
        let head = entries.drop_last();
        assert forall|i: int| 0 <= i < head.len() implies !occupied(#[trigger] head[i]) by {
            assert(head[i] == entries[i]);
        }
        lemma_none_occupied(head);
    }
}

/// Whether `e` is what some line of `lines` says.
pub open spec fn said_by(lines: Seq<Seq<char>>, e: EntryView) -> bool {
    exists|j: int| 0 <= j < lines.len() && line_entry(#[trigger] lines[j]) == e
}

/// Each entry that is kept has a name and is what one of the lines says.
pub proof fn lemma_kept_from_lines(lines: Seq<Seq<char>>)
    ensures
        forall|i: int|
            0 <= i < occupied_of(line_entries(lines)).len() ==> occupied(
                #[trigger] occupied_of(line_entries(lines))[i],
            ) && said_by(lines, occupied_of(line_entries(lines))[i]),
    decreases lines.len(),
{
    reveal(Seq::filter);
    if lines.len() > 0 {
        let head = lines.drop_last();
        lemma_kept_from_lines(head);
        let e = line_entry(lines.last());
        assert(line_entries(head).push(e) =~= line_entries(lines));
        lemma_occupied_push(line_entries(head), e);
        let kept = occupied_of(line_entries(lines));
        assert forall|i: int| 0 <= i < kept.len() implies occupied(#[trigger] kept[i]) && said_by(
            lines,
            kept[i],
        ) by {
            if i < occupied_of(line_entries(head)).len() {
                let j = choose|j: int|
                    0 <= j < head.len() && line_entry(#[trigger] head[j]) == occupied_of(
                        line_entries(head),
                    )[i];
                assert(lines[j] == head[j]);
            } else {
                assert(line_entry(lines[lines.len() - 1]) == kept[i]);
            }
        }
    }
}

/// The six slots of a text are in the shape of a roster, and each holds
/// what a line of the text with a name says, or is vacant: a line without a
/// name fills no slot, and a vacant slot has neither name nor nickname.
pub proof fn lemma_slots(text: Seq<char>)
    ensures
        well_formed(spec_parse(text)),
        forall|i: int|
            0 <= i < SLOTS ==> {
                let e = #[trigger] spec_parse(text)[i];
                ||| e == vacant_entry()
                ||| occupied(e) && said_by(split(text, '\n'), e)
            },
{
    lemma_kept_from_lines(split(text, '\n'));
}

/// The roster of entries is in the shape of a roster. Where six or more of
/// the entries have a name, the slots hold the first six of them in their
/// order, and the others are left out; where fewer have, the slots hold
/// them all, in their order.
pub proof fn lemma_roster_of(entries: Seq<EntryView>)
    ensures
        well_formed(roster_of(entries)),
        occupied_of(entries).len() >= SLOTS ==> roster_of(entries) == occupied_of(entries).take(
            SLOTS as int,
        ),
        occupied_of(entries).len() <= SLOTS ==> roster_of(entries).take(
            occupied_of(entries).len() as int,
        ) == occupied_of(entries),
{
    broadcast use Seq::lemma_filter_pred;

    let kept = occupied_of(entries);
    if kept.len() >= SLOTS {
        assert(roster_of(entries) =~= kept.take(SLOTS as int));
    }
    if kept.len() <= SLOTS {
        assert(roster_of(entries).take(kept.len() as int) =~= kept);
    }
}

/// Whether the nickname of `e`, if it has one, does not end with white
/// space.
pub open spec fn nickname_is_trimmed(e: EntryView) -> bool {
    match e.nickname {
        Some(n) => n.len() == 0 || !is_whitespace(n.last()),
        None => true,
    }
}

/// Whether the line that `e` is written as holds no line feed and says `e`
/// again when it is read.
pub open spec fn reads_back(e: EntryView) -> bool {
    &&& line_entry(entry_line(e)) == e
    &&& forall|j: int| 0 <= j < entry_line(e).len() ==> entry_line(e)[j] != '\n'
}

/// An entry with a name that a line says reads back from the line it is
/// written as, unless its nickname ends with white space.
pub proof fn lemma_line_reads_back(line: Seq<char>)
    requires
        forall|j: int| 0 <= j < line.len() ==> line[j] != '\n',
        occupied(line_entry(line)),
        nickname_is_trimmed(line_entry(line)),
    ensures
        reads_back(line_entry(line)),
{
    let t = trim(line);
    let e = line_entry(line);
    let u = entry_line(e);
    lemma_trim(line);
    lemma_index_of(t, ':');
    let (a, b) = choose|a: int, b: int|
        0 <= a <= b <= line.len() && trim(line) == #[trigger] line.subrange(a, b);
    assert forall|j: int| 0 <= j < t.len() implies t[j] != '\n' by {
        assert(t[j] == line[a + j]);
    }
    let k = index_of(t, ':');
    if k < t.len() {
        let name = t.take(k);
        let nick = replace(t.skip(k + 1), ':', ' ');
        assert(u =~= name + seq![':'] + nick);
        assert(u[0] == t[0]);
        assert(!is_whitespace(':'));
        lemma_trim_fixed(u);
        assert forall|j: int| 0 <= j < k implies u[j] != ':' by {
            assert(u[j] == t[j]);
        }
        lemma_index_of_is(u, ':', k);
        assert(u.take(k) =~= name);
        assert(u.skip(k + 1) =~= nick);
        assert(replace(nick, ':', ' ') =~= nick);
        assert forall|j: int| 0 <= j < u.len() implies u[j] != '\n' by {
            if j < k {
                assert(u[j] == t[j]);
            } else if j > k {
                assert(u[j] == nick[j - k - 1]);
            }
        }
    } else {
        assert(u == t);
        lemma_trim_fixed(t);
    }
}

/// Reading the text that entries are written as keeps the entries that
/// have a name, where each of them reads back.
pub proof fn lemma_text_reads_back(entries: Seq<EntryView>)
    requires
        forall|i: int|
            0 <= i < entries.len() && occupied(#[trigger] entries[i]) ==> reads_back(entries[i]),
    ensures
        occupied_of(line_entries(split(entries_text(entries), '\n'))) == occupied_of(entries),
    decreases entries.len(),
{
    reveal(Seq::filter);
    if entries.len() == 0 {
        let lines = split(entries_text(entries), '\n');
        assert(lines =~= seq![Seq::<char>::empty()]);
        assert(!occupied(line_entry(Seq::<char>::empty())));
        lemma_none_occupied(line_entries(lines));
    } else {
        let first = entries[0];
        let rest = entries.skip(1);
        assert forall|i: int| 0 <= i < rest.len() && occupied(#[trigger] rest[i]) implies reads_back(
            rest[i],
        ) by {
            assert(rest[i] == entries[i + 1]);
        }
        lemma_text_reads_back(rest);
        assert(entries =~= seq![first] + rest);
        lemma_occupied_add(seq![first], rest);
        if occupied(first) {
            let line = entry_line(first);
            let rest_text = entries_text(rest);
            lemma_split_first(line, '\n', rest_text);
            let lines = split(rest_text, '\n');
            assert(line_entries(seq![line] + lines) =~= seq![first] + line_entries(lines));
            lemma_occupied_add(seq![first], line_entries(lines));
        } else {
            lemma_none_occupied(seq![first]);
            assert(Seq::<EntryView>::empty() + occupied_of(rest) =~= occupied_of(rest));
        }
    }
}

/// Writing a roster as text and reading the text gives the roster again:
/// this holds of the roster of every text in which no nickname ends with
/// white space. (A nickname ends with white space where its line ends with
/// `:`, as in `a:b:`; when such a line is written and read again, the
/// space at the end is trimmed.)
pub proof fn lemma_reparse(text: Seq<char>)
    requires
        forall|i: int| 0 <= i < SLOTS ==> nickname_is_trimmed(#[trigger] spec_parse(text)[i]),
    ensures
        spec_parse(entries_text(spec_parse(text))) == spec_parse(text),
{
    let lines = split(text, '\n');
    let kept = occupied_of(line_entries(lines));
    let r = spec_parse(text);
    lemma_split_pieces(text, '\n');
    lemma_kept_from_lines(lines);
    assert forall|i: int| 0 <= i < r.len() && occupied(#[trigger] r[i]) implies reads_back(
        r[i],
    ) by {
        assert(r[i] == kept[i]);
        let j = choose|j: int| 0 <= j < lines.len() && line_entry(#[trigger] lines[j]) == kept[i];
        lemma_line_reads_back(lines[j]);
    }
    lemma_text_reads_back(r);
    let m = if kept.len() < SLOTS { kept.len() as int } else { SLOTS as int };
    let head = r.take(m);
    let tail = r.skip(m);
    assert(r =~= head + tail);
    assert(head =~= kept.take(m));
    assert forall|i: int| 0 <= i < tail.len() implies !occupied(#[trigger] tail[i]) by {
        assert(tail[i] == r[m + i]);
    }
    lemma_occupied_add(head, tail);
    lemma_all_occupied(head);
    lemma_none_occupied(tail);
    assert(occupied_of(r) =~= kept.take(m));
    assert(roster_of(line_entries(split(entries_text(r), '\n'))) =~= r);
}

} // verus!
