//! "My presets": named designs kept on this computer. The shelf decides
//! names, selection and messages; the caller writes the entries to disk when
//! an operation says so and reports how that went.
use vstd::prelude::*;
use vstd::string::*;
use crate::decimal::{decimal_text, index_text};
use crate::text::{first_chars, trim, trimmed};

verus! {

/// The most presets a library holds.
pub const LIMIT: usize = 40;

/// The most characters a preset name keeps.
pub const NAME_CHARS: usize = 80;

/// A named design.
pub struct Preset<T> {
    pub name: String,
    pub data: T,
}

/// How writing the library to disk went.
pub enum StoreOutcome {
    Stored,
    /// There is no settings folder to write to.
    NoFolder,
    /// Writing failed with this error text.
    Failed(String),
}

/// The name a typed draft gives a preset: the draft without surrounding white
/// space, cut to `NAME_CHARS` characters.
pub open spec fn clean_name(draft: Seq<char>) -> Seq<char> {
    let t = trimmed(draft);
    t.take(if t.len() < NAME_CHARS { t.len() as int } else { NAME_CHARS as int })
}

/// The name of a new preset: the cleaned draft, or `fallback` numbered after
/// the presets already kept when the draft is blank.
pub open spec fn new_preset_name(draft: Seq<char>, fallback: Seq<char>, count: nat) -> Seq<char> {
    if trimmed(draft).len() == 0 {
        fallback + seq![' '] + decimal_text(count + 1)
    } else {
        clean_name(draft)
    }
}

/// The message shown after a failed write.
pub open spec fn store_failure_message(outcome: StoreOutcome) -> Seq<char> {
    match outcome {
        StoreOutcome::NoFolder => "No settings folder available."@,
        StoreOutcome::Failed(e) => "Could not save presets: "@ + e@,
        StoreOutcome::Stored => Seq::empty(),
    }
}

pub fn clean_name_of(draft: &str) -> (r: String)
    ensures
        r@ == clean_name(draft@),
{
    String::from_str(first_chars(trim(draft), NAME_CHARS))
}

pub fn new_preset_name_of(draft: &str, fallback: &str, count: usize) -> (r: String)
    requires
        count < usize::MAX,
    ensures
        r@ == new_preset_name(draft@, fallback@, count as nat),
{
    let t = trim(draft);
    if t.unicode_len() == 0 {
        let mut out = String::from_str(fallback);
        out.append(" ");
        let n = index_text(count + 1);
        out.append(n.as_str());
        proof {
            reveal_strlit(" ");
        }
        assert(out@ =~= fallback@ + seq![' '] + decimal_text((count + 1) as nat));
        out
    } else {
        clean_name_of(draft)
    }
}

fn failure_message(outcome: &StoreOutcome) -> (r: String)
    ensures
        r@ == store_failure_message(*outcome),
{
    match outcome {
        StoreOutcome::NoFolder => String::from_str("No settings folder available."),
        StoreOutcome::Failed(e) => {
            let mut m = String::from_str("Could not save presets: ");
            m.append(e.as_str());
            m
        },
        StoreOutcome::Stored => String::new(),
    }
}

/// A library of presets.
pub struct Shelf<T> {
    pub entries: Vec<Preset<T>>,
    pub selected: Option<usize>,
    /// The name field's text.
    pub name: String,
    pub message: String,
    /// The last removed preset, which can be restored.
    pub deleted: Option<Preset<T>>,
    /// A preset removed but not yet written away.
    pub removing: Option<Preset<T>>,
}

impl<T> Shelf<T> {
    /// At most `LIMIT` presets are kept.
    pub open spec fn well_formed(&self) -> bool {
        self.entries@.len() <= LIMIT
    }

    /// A shelf holding `entries`, keeping at most the first `LIMIT`.
    pub fn new(entries: Vec<Preset<T>>) -> (r: Shelf<T>)
        ensures
            r.well_formed(),
            r.entries@ == entries@.take(if entries@.len() < LIMIT { entries@.len() as int } else { LIMIT as int }),
            r.selected == None::<usize>,
            r.name@.len() == 0,
            r.message@.len() == 0,
            r.deleted is None,
            r.removing is None,
    {
        let mut entries = entries;
        let ghost all = entries@;
        if entries.len() > LIMIT {
            entries.truncate(LIMIT);
        }
        assert(entries@ =~= all.take(if all.len() < LIMIT { all.len() as int } else { LIMIT as int }));
        Shelf { entries, selected: None, name: String::new(), message: String::new(), deleted: None, removing: None }
    }

    /// Adds `data` as a new preset named from the name field (or `fallback`
    /// numbered). True when the library changed and must be written; then
    /// report the write to `added`. A full library refuses with a message.
    pub fn add(&mut self, data: T, fallback: &str) -> (r: bool)
        requires
            old(self).well_formed(),
        ensures
            final(self).well_formed(),
            r == (old(self).entries@.len() < LIMIT),
            r ==> final(self).entries@ == old(self).entries@.push(
                Preset { name: final(self).entries@.last().name, data },
            ),
            r ==> final(self).entries@.last().name@ == new_preset_name(
                old(self).name@,
                fallback@,
                old(self).entries@.len() as nat,
            ),
            !r ==> final(self).entries@ == old(self).entries@,
            !r ==> final(self).message@ == "The library holds 40 presets. Remove one first."@,
            !r ==> final(self).name == old(self).name,
            final(self).selected == old(self).selected,
            final(self).deleted == old(self).deleted,
            final(self).removing == old(self).removing,
            r ==> final(self).name == old(self).name && final(self).message == old(self).message,
    {
        if self.entries.len() >= LIMIT {
            self.message = String::from_str("The library holds 40 presets. Remove one first.");
            return false;
        }
        let name = new_preset_name_of(self.name.as_str(), fallback, self.entries.len());
        let ghost n = name;
        self.entries.push(Preset { name, data });
        true
    }

    /// After writing a library grown by `add`: the new preset is selected and
    /// its name shown; when the write failed it is taken out again.
    pub fn added(&mut self, outcome: StoreOutcome)
        requires
            old(self).well_formed(),
            old(self).entries@.len() > 0,
        ensures
            final(self).well_formed(),
            final(self).deleted == old(self).deleted,
            final(self).removing == old(self).removing,
            outcome is Stored ==> final(self).entries@ == old(self).entries@
                && final(self).selected == Some((old(self).entries@.len() - 1) as usize)
                && final(self).name@ == old(self).entries@.last().name@
                && final(self).message@ == "Preset saved."@,
            !(outcome is Stored) ==> final(self).entries@ == old(self).entries@.drop_last()
                && final(self).selected == old(self).selected
                && final(self).name == old(self).name
                && final(self).message@ == store_failure_message(outcome),
    {
        match outcome {
            StoreOutcome::Stored => {
                let last = self.entries.len() - 1;
                self.selected = Some(last);
                self.name = self.entries[last].name.clone();
                self.message = String::from_str("Preset saved.");
            },
            _ => {
                self.message = failure_message(&outcome);
                self.entries.pop();
            },
        }
    }

    /// Renames the selected preset from the name field. True when the
    /// library changed and must be written (the message then reads
    /// "Renamed." whatever the write did).
    pub fn rename(&mut self) -> (r: bool)
        requires
            old(self).well_formed(),
            old(self).selected matches Some(i) ==> i < old(self).entries@.len(),
        ensures
            final(self).well_formed(),
            r == (old(self).selected is Some && trimmed(old(self).name@).len() > 0),
            r ==> ({
                let i = old(self).selected->0 as int;
                &&& final(self).entries@.len() == old(self).entries@.len()
                &&& final(self).entries@[i].name@ == clean_name(old(self).name@)
                &&& forall|j: int| 0 <= j < old(self).entries@.len() && j != i ==> final(self).entries@[j]
                    == old(self).entries@[j]
                &&& final(self).message@ == "Renamed."@
            }),
            !r ==> final(self).entries@ == old(self).entries@ && final(self).message == old(self).message,
            final(self).selected == old(self).selected,
            final(self).name == old(self).name,
            final(self).deleted == old(self).deleted,
            final(self).removing == old(self).removing,
    {
        match self.selected {
            Some(i) => {
                if trim(self.name.as_str()).unicode_len() == 0 {
                    return false;
                }
                let new_name = clean_name_of(self.name.as_str());
                let ghost before = self.entries@;
                let old_entry = self.entries.remove(i);
                let Preset { name: _, data } = old_entry;
                self.entries.insert(i, Preset { name: new_name, data });
                proof {
                    assert forall|j: int| 0 <= j < before.len() && j != i implies self.entries@[j] == before[j] by {
                        if j < i {
                            assert(self.entries@[j] == before.remove(i as int)[j]);
                        } else {
                            assert(self.entries@[j] == before.remove(i as int)[j - 1]);
                        }
                    }
                }
                self.message = String::from_str("Renamed.");
                true
            },
            None => false,
        }
    }

    /// Adds a copy of the selected preset named "<name> copy" (the name field
    /// shows that name). True when the library changed and must be written;
    /// then report the write to `added`.
    pub fn duplicate(&mut self) -> (r: bool)
        where T: Clone
        requires
            old(self).well_formed(),
            old(self).selected matches Some(i) ==> i < old(self).entries@.len(),
        ensures
            final(self).well_formed(),
            r == (old(self).selected is Some && old(self).entries@.len() < LIMIT),
            old(self).selected is Some ==> final(self).name@ == old(self).entries@[old(self).selected->0 as int].name@
                + " copy"@,
            r ==> final(self).entries@.len() == old(self).entries@.len() + 1
                && final(self).entries@.drop_last() == old(self).entries@
                && final(self).entries@.last().name@ == clean_name(final(self).name@)
                && cloned::<T>(old(self).entries@[old(self).selected->0 as int].data, final(self).entries@.last().data),
            !r ==> final(self).entries@ == old(self).entries@,
            r ==> final(self).message == old(self).message,
            old(self).selected is Some && !r ==> final(self).message@
                == "The library holds 40 presets. Remove one first."@,
            old(self).selected is None ==> final(self).name == old(self).name && final(self).message
                == old(self).message,
            final(self).selected == old(self).selected,
            final(self).deleted == old(self).deleted,
            final(self).removing == old(self).removing,
    {
        match self.selected {
            Some(i) => {
                let mut name = self.entries[i].name.clone();
                name.append(" copy");
                self.name = name;
                let data = self.entries[i].data.clone();
                let r = self.add(data, "Preset");
                proof {
                    reveal_strlit(" copy");
                    assert(" copy"@.len() == 5 && " copy"@[1] == 'c');
                    if r {
                        assert(trimmed(self.name@).len() > 0) by {
                            lemma_trimmed_nonblank(self.name@, self.name@.len() - 4);
                        }
                        assert(self.entries@.drop_last() =~= old(self).entries@);
                    }
                }
                r
            },
            None => false,
        }
    }

    /// Takes the selected preset out. True when the library changed and must
    /// be written; then report the write to `removed`.
    pub fn delete(&mut self) -> (r: bool)
        requires
            old(self).well_formed(),
            old(self).selected matches Some(i) ==> i < old(self).entries@.len(),
        ensures
            final(self).well_formed(),
            r == old(self).selected is Some,
            r ==> final(self).entries@ == old(self).entries@.remove(old(self).selected->0 as int)
                && final(self).removing == Some(old(self).entries@[old(self).selected->0 as int]),
            !r ==> final(self).entries@ == old(self).entries@ && final(self).removing
                == old(self).removing,
            final(self).selected == old(self).selected,
            final(self).name == old(self).name,
            final(self).message == old(self).message,
            final(self).deleted == old(self).deleted,
    {
        match self.selected {
            Some(i) => {
                let e = self.entries.remove(i);
                self.removing = Some(e);
                true
            },
            None => false,
        }
    }

    /// After writing a library shrunk by `delete`: the removed preset can be
    /// restored and nothing is selected; when the write failed it is gone for
    /// good and the selection stays.
    pub fn removed(&mut self, outcome: StoreOutcome)
        requires
            old(self).well_formed(),
        ensures
            final(self).well_formed(),
            final(self).entries@ == old(self).entries@,
            final(self).name == old(self).name,
            final(self).removing is None,
            outcome is Stored ==> final(self).deleted == old(self).removing && final(self).selected
                == None::<usize> && final(self).message@ == "Preset removed."@,
            !(outcome is Stored) ==> final(self).deleted == old(self).deleted && final(self).selected
                == old(self).selected && final(self).message@ == store_failure_message(outcome),
    {
        let pending = self.removing.take();
        match outcome {
            StoreOutcome::Stored => {
                self.deleted = pending;
                self.selected = None;
                self.message = String::from_str("Preset removed.");
            },
            _ => {
                self.message = failure_message(&outcome);
            },
        }
    }

    /// Brings back the last removed preset, at the end, if there is room.
    /// True when the library changed and must be written (the message then
    /// reads "Preset restored." whatever the write did).
    pub fn undo_delete(&mut self) -> (r: bool)
        requires
            old(self).well_formed(),
        ensures
            final(self).well_formed(),
            final(self).deleted is None,
            r == (old(self).deleted is Some && old(self).entries@.len() < LIMIT),
            r ==> final(self).entries@ == old(self).entries@.push(old(self).deleted->0)
                && final(self).message@ == "Preset restored."@,
            !r ==> final(self).entries@ == old(self).entries@ && final(self).message == old(self).message,
            final(self).selected == old(self).selected,
            final(self).name == old(self).name,
            final(self).removing == old(self).removing,
    {
        match self.deleted.take() {
            Some(e) => {
                if self.entries.len() < LIMIT {
                    self.entries.push(e);
                    self.message = String::from_str("Preset restored.");
                    true
                } else {
                    false
                }
            },
            None => false,
        }
    }
}

/// A text with a character that is not white space does not trim away.
pub proof fn lemma_trimmed_nonblank(s: Seq<char>, k: int)
    requires
        0 <= k < s.len(),
        !crate::text::is_space(s[k]),
    ensures
        trimmed(s).len() > 0,
{
    crate::text::lemma_trim_keeps(s, k);
}

/// Removing a preset and restoring it (when the removal was written) gives
/// the library back with that preset moved to the end.
pub proof fn restore_after_delete<T>(entries: Seq<Preset<T>>, i: int)
    requires
        0 <= i < entries.len(),
        entries.len() <= LIMIT,
    ensures
        entries.remove(i).push(entries[i]).len() == entries.len(),
        entries.remove(i).push(entries[i]).to_multiset() == entries.to_multiset(),
{
    let r = entries.remove(i);
    entries.to_multiset_ensures();
    r.to_multiset_ensures();
    assert(entries.contains(entries[i]));
    assert(entries.to_multiset().count(entries[i]) > 0);
    assert(r.push(entries[i]).to_multiset() =~= entries.to_multiset().remove(entries[i]).insert(entries[i]));
    assert(r.push(entries[i]).to_multiset() =~= entries.to_multiset());
}

} // verus!
