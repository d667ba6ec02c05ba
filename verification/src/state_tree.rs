//! Named discovery of state: paths, aliases and nesting.
use crate::error::{err, invalid, Error};
use crate::image::same_text;
use crate::listing::{listed_text, listing};
use crate::state::StateSlot;
use crate::text::{decimal, decimal_text, joined_text};
use vstd::prelude::*;

verus! {

/// Discovery of state slots in a stable order. Implementations list every field
/// that they want found, under paths of nonempty segments between dots.
pub trait StateTree {
    /// The slots with their paths, in order.
    fn visit_states(&self) -> Vec<(String, StateSlot)>;
}

impl<T: StateTree> StateTree for &T {
    fn visit_states(&self) -> Vec<(String, StateSlot)> {
        (**self).visit_states()
    }
}

impl<T: StateTree> StateTree for Box<T> {
    fn visit_states(&self) -> Vec<(String, StateSlot)> {
        (**self).visit_states()
    }
}

/// One slot with the path of its first visit and the paths of later visits.
pub struct StateEntry {
    pub name: String,
    pub aliases: Vec<String>,
    pub slot: StateSlot,
}

/// The mathematical content of an entry.
#[verifier::ext_equal]
pub ghost struct EntryModel {
    pub name: Seq<char>,
    pub aliases: Seq<Seq<char>>,
    pub slot: StateSlot,
}

impl View for StateEntry {
    type V = EntryModel;

    open spec fn view(&self) -> EntryModel {
        EntryModel { name: self.name@, aliases: texts_view(self.aliases@), slot: self.slot }
    }
}

/// The contents of a list of texts.
pub open spec fn texts_view(texts: Seq<String>) -> Seq<Seq<char>> {
    Seq::new(texts.len(), |k: int| texts[k]@)
}

/// The contents of a list of entries.
pub open spec fn entries_view(entries: Seq<StateEntry>) -> Seq<EntryModel> {
    Seq::new(entries.len(), |k: int| entries[k]@)
}

/// Paths with their slots.
pub type Visits = Seq<(Seq<char>, StateSlot)>;

/// The contents of a list of visits.
pub open spec fn visits_view(visits: Seq<(String, StateSlot)>) -> Visits {
    Seq::new(visits.len(), |k: int| (visits[k].0@, visits[k].1))
}

/// Whether a path consists of nonempty segments between dots.
pub open spec fn segmented(path: Seq<char>) -> bool {
    &&& path.len() > 0
    &&& path[0] != '.'
    &&& path.last() != '.'
    &&& forall|i: int| 0 < i < path.len() ==> !(path[i - 1] == '.' && #[trigger] path[i] == '.')
}

/// Whether a path consists of nonempty segments between dots.
fn is_segmented(path: &str) -> (r: bool)
    ensures
        r == segmented(path@),
{
    let count: usize = path.unicode_len();
    if count == 0 || path.get_char(0) == '.' || path.get_char(count - 1) == '.' {
        return false;
    }
    let mut i: usize = 1;
    while i < count
        invariant
            count == path@.len(),
            1 <= i <= count,
            forall|k: int| 0 < k < i ==> !(path@[k - 1] == '.' && #[trigger] path@[k] == '.'),
        decreases count - i,
    {
        if path.get_char(i - 1) == '.' && path.get_char(i) == '.' {
            assert(path@[i as int] == '.');
            return false;
        }
        i += 1;
    }
    true
}

/// The first refusal among the first `count` visits.
pub open spec fn visits_refusal(visits: Visits, count: nat) -> Option<Error>
    decreases count,
{
    if count == 0 {
        None
    } else {
        match visits_refusal(visits, (count - 1) as nat) {
            Some(e) => Some(e),
            None => if !segmented(visits[count - 1].0) {
                Some(invalid("state paths must have nonempty segments"))
            } else if exists|k: int|
                0 <= k < count - 1 && (#[trigger] visits[k]).0 == visits[count - 1].0 {
                Some(Error::DuplicateStatePath { path: listing(visits[count - 1].0) })
            } else {
                None
            },
        }
    }
}

/// A refusal found early is the refusal in the end.
proof fn lemma_visits_refused(visits: Visits, early: nat, count: nat)
    requires
        early <= count,
        visits_refusal(visits, early) is Some,
    ensures
        visits_refusal(visits, count) == visits_refusal(visits, early),
    decreases count - early,
{
    if early < count {
        lemma_visits_refused(visits, early + 1, count);
    }
}

/// The position of the first entry of a slot, among the first `count`.
pub open spec fn entry_of(entries: Seq<EntryModel>, slot: StateSlot, count: nat) -> Option<int>
    decreases count,
{
    if count == 0 {
        None
    } else {
        match entry_of(entries, slot, (count - 1) as nat) {
            Some(k) => Some(k),
            None => if entries[count - 1].slot == slot {
                Some(count - 1)
            } else {
                None
            },
        }
    }
}

/// The entries after the first `count` visits: a new entry for a new slot, an
/// alias for a known one.
pub open spec fn collected(visits: Visits, count: nat) -> Seq<EntryModel>
    decreases count,
{
    if count == 0 {
        Seq::empty()
    } else {
        let before = collected(visits, (count - 1) as nat);
        let (path, slot) = visits[count - 1];
        match entry_of(before, slot, before.len()) {
            None => before.push(EntryModel { name: path, aliases: Seq::empty(), slot }),
            Some(k) => before.update(
                k,
                EntryModel { aliases: before[k].aliases.push(path), ..before[k] },
            ),
        }
    }
}

/// What the position of an entry says.
proof fn lemma_entry_of(entries: Seq<EntryModel>, slot: StateSlot, count: nat)
    requires
        count <= entries.len(),
    ensures
        match entry_of(entries, slot, count) {
            Some(k) => 0 <= k < count && entries[k].slot == slot,
            None => forall|k: int| 0 <= k < count ==> (#[trigger] entries[k]).slot != slot,
        },
    decreases count,
{
    if count > 0 {
        lemma_entry_of(entries, slot, (count - 1) as nat);
    }
}

/// Every visited slot has exactly one entry, and no other slot has one.
pub proof fn entries_are_the_visited_slots(visits: Visits, count: nat)
    requires
        count <= visits.len(),
    ensures
        forall|i: int, j: int|
            0 <= i < j < collected(visits, count).len() ==> (#[trigger] collected(
                visits,
                count,
            )[i]).slot != (#[trigger] collected(visits, count)[j]).slot,
        forall|k: int|
            0 <= k < count ==> has_entry(collected(visits, count), (#[trigger] visits[k]).1),
        forall|i: int|
            0 <= i < collected(visits, count).len() ==> was_visited(
                visits,
                count,
                (#[trigger] collected(visits, count)[i]).slot,
            ),
    decreases count,
{
    let entries = collected(visits, count);
    if count > 0 {
        entries_are_the_visited_slots(visits, (count - 1) as nat);
        let before = collected(visits, (count - 1) as nat);
        let slot = visits[count - 1].1;
        lemma_entry_of(before, slot, before.len());
        assert forall|i: int| 0 <= i < entries.len() implies was_visited(
            visits,
            count,
            (#[trigger] entries[i]).slot,
        ) by {
            if i < before.len() {
                assert(entries[i].slot == before[i].slot);
                assert(was_visited(visits, (count - 1) as nat, before[i].slot));
                let k = choose|k: int|
                    0 <= k < count - 1 && (#[trigger] visits[k]).1 == before[i].slot;
                assert(visits[k].1 == entries[i].slot);
            } else {
                assert(visits[count - 1].1 == entries[i].slot);
            }
        }
        assert forall|k: int| 0 <= k < count implies has_entry(
            entries,
            (#[trigger] visits[k]).1,
        ) by {
            if k < count - 1 {
                assert(has_entry(before, visits[k].1));
                let i = choose|i: int|
                    0 <= i < before.len() && (#[trigger] before[i]).slot == visits[k].1;
                assert(entries[i].slot == visits[k].1);
            } else {
                match entry_of(before, slot, before.len()) {
                    Some(i) => {
                        assert(entries[i].slot == slot);
                    },
                    None => {
                        assert(entries[before.len() as int].slot == slot);
                    },
                }
            }
        }
        assert forall|i: int, j: int| 0 <= i < j < entries.len() implies (
        #[trigger] entries[i]).slot != (#[trigger] entries[j]).slot by {
            assert(entries[i].slot == before[i].slot);
            if j < before.len() {
                assert(entries[j].slot == before[j].slot);
            }
        }
    }
}

/// Whether a slot has an entry.
pub open spec fn has_entry(entries: Seq<EntryModel>, slot: StateSlot) -> bool {
    exists|i: int| 0 <= i < entries.len() && (#[trigger] entries[i]).slot == slot
}

/// Whether one of the first `count` visits is to a slot.
pub open spec fn was_visited(visits: Visits, count: nat, slot: StateSlot) -> bool {
    exists|k: int| 0 <= k < count && (#[trigger] visits[k]).1 == slot
}

/// Whether a collection is that of visits.
pub open spec fn collects(visits: Visits, r: Result<Vec<StateEntry>, Error>) -> bool {
    match r {
        Ok(entries) => {
            &&& visits_refusal(visits, visits.len()) is None
            &&& entries_view(entries@) == collected(visits, visits.len())
        },
        Err(e) => visits_refusal(visits, visits.len()) == Some(e),
    }
}

/// Collect the slots of a tree. Shared slots keep their first path as a name
/// and later paths as aliases.
pub fn states<T: StateTree>(tree: &T) -> (r: Result<Vec<StateEntry>, Error>)
    ensures
        exists|visits: Vec<(String, StateSlot)>|
            #[trigger] call_ensures(T::visit_states, (tree,), visits) && collects(
                visits_view(visits@),
                r,
            ),
{
    let visits: Vec<(String, StateSlot)> = tree.visit_states();
    collect_states(&visits)
}

/// Collect visited slots, refusing empty path segments and repeated paths.
pub fn collect_states(visits: &Vec<(String, StateSlot)>) -> (r: Result<Vec<StateEntry>, Error>)
    ensures
        collects(visits_view(visits@), r),
{
    let ghost list = visits_view(visits@);
    let mut entries: Vec<StateEntry> = Vec::new();
    assert(entries_view(entries@) =~= collected(list, 0));
    let mut i: usize = 0;
    while i < visits.len()
        invariant
            list == visits_view(visits@),
            i <= visits@.len(),
            visits_refusal(list, i as nat) is None,
            entries_view(entries@) == collected(list, i as nat),
        decreases visits@.len() - i,
    {
        proof {
            assert(list[i as int] == (visits@[i as int].0@, visits@[i as int].1));
            if visits_refusal(list, (i + 1) as nat) is Some {
                lemma_visits_refused(list, (i + 1) as nat, list.len());
            }
        }
        if !is_segmented(visits[i].0.as_str()) {
            return Err(err("state paths must have nonempty segments"));
        }
        let mut k: usize = 0;
        while k < i
            invariant
                list == visits_view(visits@),
                k <= i < visits@.len(),
                visits_refusal(list, i as nat) is None,
                segmented(list[i as int].0),
                visits_refusal(list, (i + 1) as nat) is Some ==> visits_refusal(list, list.len())
                    == visits_refusal(list, (i + 1) as nat),
                forall|j: int| 0 <= j < k ==> (#[trigger] list[j]).0 != list[i as int].0,
            decreases i - k,
        {
            assert(list[k as int].0 == visits@[k as int].0@);
            if same_text(visits[k].0.as_str(), visits[i].0.as_str()) {
                assert(list[k as int].0 == list[i as int].0);
                return Err(Error::DuplicateStatePath { path: listed_text(visits[i].0.as_str()) });
            }
            k += 1;
        }
        let slot: StateSlot = visits[i].1;
        let ghost before = entries_view(entries@);
        let mut found: Option<usize> = None;
        let mut e: usize = 0;
        while e < entries.len()
            invariant
                before == entries_view(entries@),
                e <= entries@.len(),
                match found {
                    Some(at) => at < e && entry_of(before, slot, e as nat) == Some(at as int),
                    None => entry_of(before, slot, e as nat) is None,
                },
            decreases entries@.len() - e,
        {
            assert(before[e as int].slot == entries@[e as int].slot);
            if found.is_none() && entries[e].slot == slot {
                found = Some(e);
            }
            e += 1;
        }
        let path: String = visits[i].0.as_str().to_owned();
        match found {
            None => {
                entries.push(StateEntry { name: path, aliases: Vec::new(), slot });
                proof {
                    let last = entries@[before.len() as int];
                    assert(texts_view(last.aliases@) =~= Seq::empty());
                    assert(entries_view(entries@) =~= before.push(last@));
                }
            },
            Some(at) => {
                let ghost known = entries@[at as int];
                let name: String = entries[at].name.as_str().to_owned();
                let mut aliases: Vec<String> = duplicate_texts(&entries[at].aliases);
                aliases.push(path);
                assert(texts_view(aliases@) =~= texts_view(known.aliases@).push(list[i as int].0));
                entries.set(at, StateEntry { name, aliases, slot });
                proof {
                    assert(before[at as int] == known@);
                    assert(known.slot == slot) by {
                        lemma_entry_of(before, slot, before.len());
                    }
                    assert(entries_view(entries@) =~= before.update(
                        at as int,
                        entries@[at as int]@,
                    ));
                }
            },
        }
        i += 1;
    }
    Ok(entries)
}

/// A copy of a list of texts.
fn duplicate_texts(texts: &Vec<String>) -> (r: Vec<String>)
    ensures
        texts_view(r@) == texts_view(texts@),
{
    let mut list: Vec<String> = Vec::new();
    let mut i: usize = 0;
    while i < texts.len()
        invariant
            i <= texts@.len(),
            list@.len() == i,
            forall|k: int| 0 <= k < i ==> (#[trigger] list@[k])@ == texts@[k]@,
        decreases texts@.len() - i,
    {
        list.push(texts[i].as_str().to_owned());
        i += 1;
    }
    assert(texts_view(list@) =~= texts_view(texts@));
    list
}

/// Visits under a longer path.
pub open spec fn under(path: Seq<char>, visits: Visits) -> Visits {
    Seq::new(visits.len(), |k: int| (path + seq!['.'] + visits[k].0, visits[k].1))
}

/// The visits of a nested tree, each under the path of the tree.
pub fn nested(path: &str, visits: &Vec<(String, StateSlot)>) -> (r: Vec<(String, StateSlot)>)
    ensures
        visits_view(r@) == under(path@, visits_view(visits@)),
{
    proof {
        reveal_strlit(".");
        assert("."@ =~= seq!['.']);
    }
    let prefix: String = joined_text(path, ".");
    let mut list: Vec<(String, StateSlot)> = Vec::new();
    let mut i: usize = 0;
    while i < visits.len()
        invariant
            prefix@ == path@ + seq!['.'],
            i <= visits@.len(),
            list@.len() == i,
            forall|k: int|
                0 <= k < i ==> (#[trigger] list@[k]).0@ == path@ + seq!['.'] + visits@[k].0@
                    && list@[k].1 == visits@[k].1,
        decreases visits@.len() - i,
    {
        list.push((joined_text(prefix.as_str(), visits[i].0.as_str()), visits[i].1));
        i += 1;
    }
    assert(visits_view(list@) =~= under(path@, visits_view(visits@)));
    list
}

/// The visits of one tree of a list, each under the path and the position of
/// the tree.
pub fn nested_at(path: &str, index: usize, visits: &Vec<(String, StateSlot)>) -> (r: Vec<
    (String, StateSlot),
>)
    ensures
        visits_view(r@) == under(path@ + seq!['.'] + decimal(index as nat), visits_view(visits@)),
{
    proof {
        reveal_strlit(".");
        assert("."@ =~= seq!['.']);
    }
    let prefix: String = joined_text(path, ".");
    let whole: String = joined_text(prefix.as_str(), decimal_text(index).as_str());
    nested(whole.as_str(), visits)
}

/// Nesting keeps paths of nonempty segments.
pub proof fn nested_paths_stay_segmented(path: Seq<char>, name: Seq<char>)
    requires
        segmented(path),
        segmented(name),
    ensures
        segmented(path + seq!['.'] + name),
{
    let whole = path + seq!['.'] + name;
    assert(whole.last() == name.last());
    assert forall|i: int| 0 < i < whole.len() implies !(whole[i - 1] == '.' && #[trigger] whole[i]
        == '.') by {
        if i < path.len() {
            assert(whole[i] == path[i]);
        } else if i == path.len() {
            assert(whole[i - 1] == path.last());
        } else if i == path.len() + 1 {
            assert(whole[i] == name[0]);
        } else {
            assert(whole[i] == name[i - path.len() - 1]);
            assert(whole[i - 1] == name[i - path.len() - 2]);
        }
    }
}

} // verus!
