//! Grouping scanned files into photo units by shared base name.
//!
//! A unit bundles every file whose name starts with the same key (the part
//! before the first `.`): the primary photo together with its sidecars.
//! Grouping is a partition of the input: every file lands in exactly one
//! unit, the one whose key is the file's own base key.

use vstd::prelude::*;
use vstd::multiset::Multiset;
use crate::bytes::clone_bytes;
use crate::classify::base_key_of;

verus! {

broadcast use {vstd::seq_lib::group_to_multiset_ensures, vstd::multiset::group_multiset_axioms};

/// One scanned file: its full path and its file name (the last path
/// component).
#[derive(Debug, PartialEq, Eq)]
pub struct FileEntry {
    pub path: Vec<u8>,
    pub name: Vec<u8>,
}

/// Mathematical image of a [`FileEntry`].
pub struct FileEntryV {
    pub path: Seq<u8>,
    pub name: Seq<u8>,
}

impl View for FileEntry {
    type V = FileEntryV;

    open spec fn view(&self) -> FileEntryV {
        FileEntryV { path: self.path@, name: self.name@ }
    }
}

/// Copies a file entry.
pub fn clone_entry(e: &FileEntry) -> (r: FileEntry)
    ensures
        r@ == e@,
{
    FileEntry { path: clone_bytes(&e.path), name: clone_bytes(&e.name) }
}

/// One photo unit: the shared base key and every file carrying it.
#[derive(Debug, PartialEq, Eq)]
pub struct Unit {
    pub key: Vec<u8>,
    pub files: Vec<FileEntry>,
}

/// Mathematical image of a [`Unit`].
pub struct UnitV {
    pub key: Seq<u8>,
    pub files: Seq<FileEntryV>,
}

impl View for Unit {
    type V = UnitV;

    open spec fn view(&self) -> UnitV {
        UnitV { key: self.key@, files: entries_view(self.files@) }
    }
}

/// Mathematical image of a list of file entries.
pub open spec fn entries_view(v: Seq<FileEntry>) -> Seq<FileEntryV> {
    v.map_values(|e: FileEntry| e@)
}

/// Mathematical image of a list of units.
pub open spec fn units_view(v: Seq<Unit>) -> Seq<UnitV> {
    v.map_values(|u: Unit| u@)
}

/// First index of the unit with the given key, `-1` when no unit has it.
pub open spec fn find_unit(units: Seq<UnitV>, k: Seq<u8>) -> int
    decreases units.len(),
{
    if units.len() == 0 {
        -1
    } else if units[0].key == k {
        0
    } else if find_unit(units.drop_first(), k) == -1 {
        -1
    } else {
        1 + find_unit(units.drop_first(), k)
    }
}

/// `find_unit` finds the first unit with the key, and `-1` means none has it.
pub proof fn lemma_find_unit(units: Seq<UnitV>, k: Seq<u8>)
    ensures
        -1 <= find_unit(units, k) < units.len(),
        find_unit(units, k) == -1 ==> forall|i: int|
            0 <= i < units.len() ==> (#[trigger] units[i]).key != k,
        find_unit(units, k) >= 0 ==> find_unit(units, k) < units.len() && units[find_unit(
            units,
            k,
        )].key == k,
        find_unit(units, k) >= 0 ==> forall|i: int|
            0 <= i < find_unit(units, k) ==> (#[trigger] units[i]).key != k,
    decreases units.len(),
{
    if units.len() > 0 && units[0].key != k {
        lemma_find_unit(units.drop_first(), k);
        let fr = find_unit(units.drop_first(), k);
        assert(forall|i: int|
            1 <= i < units.len() ==> units[i] == #[trigger] units.drop_first()[i - 1]);
        if fr == -1 {
            assert forall|i: int| 0 <= i < units.len() implies (#[trigger] units[i]).key != k by {
                if i >= 1 {
                    assert(units.drop_first()[i - 1].key != k);
                }
            }
        } else {
            assert(find_unit(units, k) == 1 + fr);
            assert(units[1 + fr].key == units.drop_first()[fr].key);
            assert forall|i: int| 0 <= i < 1 + fr implies (#[trigger] units[i]).key != k by {
                if i >= 1 {
                    assert(units.drop_first()[i - 1].key != k);
                }
            }
        }
    }
}

/// Adds one file to the unit map: appends it to the unit that already owns
/// its base key, or opens a new unit.
pub open spec fn add_entry(units: Seq<UnitV>, e: FileEntryV) -> Seq<UnitV> {
    let k = base_key_of(e.name);
    let i = find_unit(units, k);
    if i == -1 {
        units.push(UnitV { key: k, files: seq![e] })
    } else {
        units.update(i, UnitV { key: k, files: units[i].files.push(e) })
    }
}

/// The unit map built from a list of scanned files, in first-seen key order.
pub open spec fn group_spec(entries: Seq<FileEntryV>) -> Seq<UnitV>
    decreases entries.len(),
{
    if entries.len() == 0 {
        Seq::empty()
    } else {
        add_entry(group_spec(entries.drop_last()), entries.last())
    }
}

/// All files held by a list of units, as a multiset.
pub open spec fn units_files(units: Seq<UnitV>) -> Multiset<FileEntryV>
    decreases units.len(),
{
    if units.len() == 0 {
        Multiset::empty()
    } else {
        units_files(units.drop_last()).add(units.last().files.to_multiset())
    }
}

/// The units are well formed: keys are pairwise distinct, every unit holds
/// at least one file, and every file sits in the unit of its own base key.
pub open spec fn units_wf(units: Seq<UnitV>) -> bool {
    &&& forall|i: int, j: int|
        0 <= i < j < units.len() ==> (#[trigger] units[i]).key != (#[trigger] units[j]).key
    &&& forall|i: int| 0 <= i < units.len() ==> (#[trigger] units[i]).files.len() >= 1
    &&& forall|i: int, j: int|
        0 <= i < units.len() && 0 <= j < units[i].files.len() ==> base_key_of(
            #[trigger] units[i].files[j].name,
        ) == units[i].key
}

proof fn lemma_units_files_update(units: Seq<UnitV>, i: int, u: UnitV, e: FileEntryV)
    requires
        0 <= i < units.len(),
        u.files.to_multiset() == units[i].files.to_multiset().insert(e),
    ensures
        units_files(units.update(i, u)) =~= units_files(units).insert(e),
    decreases units.len(),
{
    if i == units.len() - 1 {
        assert(units.update(i, u).drop_last() =~= units.drop_last());
        assert(units.update(i, u).last() == u);
    } else {
        assert(units.update(i, u).drop_last() =~= units.drop_last().update(i, u));
        assert(units.update(i, u).last() == units.last());
        lemma_units_files_update(units.drop_last(), i, u, e);
    }
}

/// Adding one file to the unit map adds exactly that file to the union of
/// the units' files.
proof fn lemma_add_entry_files(units: Seq<UnitV>, e: FileEntryV)
    ensures
        units_files(add_entry(units, e)) =~= units_files(units).insert(e),
{
    let k = base_key_of(e.name);
    let i = find_unit(units, k);
    lemma_find_unit(units, k);
    if i == -1 {
        let nu = UnitV { key: k, files: seq![e] };
        assert(units.push(nu).drop_last() =~= units);
        assert(seq![e] =~= Seq::<FileEntryV>::empty().push(e));
        assert(seq![e].to_multiset() =~= Multiset::empty().insert(e));
    } else {
        let u = UnitV { key: k, files: units[i].files.push(e) };
        lemma_units_files_update(units, i, u, e);
    }
}

/// Adding one file keeps the unit map well formed.
proof fn lemma_add_entry_wf(units: Seq<UnitV>, e: FileEntryV)
    requires
        units_wf(units),
    ensures
        units_wf(add_entry(units, e)),
{
    let k = base_key_of(e.name);
    let i = find_unit(units, k);
    lemma_find_unit(units, k);
    if i == -1 {
        let out = units.push(UnitV { key: k, files: seq![e] });
        assert(forall|m: int| 0 <= m < units.len() ==> out[m] == #[trigger] units[m]);
        assert(out.last().files == seq![e]);
    } else {
        let u = UnitV { key: k, files: units[i].files.push(e) };
        let out = units.update(i, u);
        assert forall|m: int, j: int|
            0 <= m < out.len() && 0 <= j < out[m].files.len() implies base_key_of(
            #[trigger] out[m].files[j].name,
        ) == out[m].key by {
            if m == i {
                if j < units[i].files.len() {
                    assert(out[m].files[j] == units[i].files[j]);
                } else {
                    assert(out[m].files[j] == e);
                }
            } else {
                assert(out[m] == units[m]);
            }
        }
    }
}

/// Grouping is a partition: taken together the units hold exactly the input
/// files, each exactly once; unit keys are pairwise distinct; and every file
/// sits in the unit keyed by its own base key.
pub proof fn lemma_grouping_partition(entries: Seq<FileEntryV>)
    ensures
        units_files(group_spec(entries)) =~= entries.to_multiset(),
        units_wf(group_spec(entries)),
    decreases entries.len(),
{
    if entries.len() == 0 {
    } else {
        lemma_grouping_partition(entries.drop_last());
        lemma_add_entry_files(group_spec(entries.drop_last()), entries.last());
        lemma_add_entry_wf(group_spec(entries.drop_last()), entries.last());
        assert(entries.drop_last().push(entries.last()) =~= entries);
        assert(entries.drop_last().push(entries.last()).to_multiset() =~= entries.drop_last()
            .to_multiset().insert(entries.last()));
    }
}

/// First index of the unit holding this key.
fn find_unit_index(units: &Vec<Unit>, k: &[u8]) -> (r: Option<usize>)
    ensures
        match r {
            Some(i) => i < units@.len() && find_unit(units_view(units@), k@) == i,
            None => find_unit(units_view(units@), k@) == -1,
        },
{
    proof {
        lemma_find_unit(units_view(units@), k@);
    }
    let mut i: usize = 0;
    while i < units.len()
        invariant
            i <= units@.len(),
            forall|j: int| 0 <= j < i ==> (#[trigger] units_view(units@)[j]).key != k@,
            -1 <= find_unit(units_view(units@), k@) < units@.len(),
            find_unit(units_view(units@), k@) == -1 ==> forall|j: int|
                0 <= j < units@.len() ==> (#[trigger] units_view(units@)[j]).key != k@,
            find_unit(units_view(units@), k@) >= 0 ==> find_unit(units_view(units@), k@)
                < units@.len() && units_view(units@)[find_unit(units_view(units@), k@)].key == k@,
            find_unit(units_view(units@), k@) >= 0 ==> forall|j: int|
                0 <= j < find_unit(units_view(units@), k@) ==> (#[trigger] units_view(
                    units@,
                )[j]).key != k@,
        decreases units@.len() - i,
    {
        if crate::bytes::bytes_eq(units[i].key.as_slice(), k) {
            proof {
                let uv = units_view(units@);
                assert(uv[i as int].key == k@);
                let f = find_unit(uv, k@);
                if f == -1 {
                    assert(uv[i as int].key != k@);
                } else if f < i {
                    assert(uv[f].key != k@);
                } else if f > i {
                    assert(uv[i as int].key != k@);
                }
                assert(f == i);
            }
            return Some(i);
        }
        i = i + 1;
    }
    None
}

/// Partitions the scanned files into photo units by base key. Each file goes
/// to the unit of the key `base_key_of(name)`; units appear in first-seen
/// order.
pub fn group_files(entries: &Vec<FileEntry>) -> (units: Vec<Unit>)
    ensures
        units_view(units@) == group_spec(entries_view(entries@)),
        units_files(units_view(units@)) =~= entries_view(entries@).to_multiset(),
        units_wf(units_view(units@)),
{
    let mut units: Vec<Unit> = Vec::new();
    let mut i: usize = 0;
    proof {
        assert(entries_view(entries@.take(0)) =~= Seq::<FileEntryV>::empty());
    }
    while i < entries.len()
        invariant
            i <= entries@.len(),
            units_view(units@) == group_spec(entries_view(entries@.take(i as int))),
        decreases entries@.len() - i,
    {
        let e = &entries[i];
        let k = crate::classify::base_key(e.name.as_slice());
        let ghost pre = units_view(units@);
        match find_unit_index(&units, k.as_slice()) {
            Some(j) => {
                proof {
                    lemma_find_unit(pre, k@);
                    assert(pre[j as int].key == k@);
                }
                let mut u = units.remove(j);
                u.files.push(clone_entry(e));
                units.insert(j, u);
                proof {
                    let uv = UnitV { key: k@, files: pre[j as int].files.push(e@) };
                    assert(u@.files =~= pre[j as int].files.push(e@));
                    assert(u@ == uv);
                    assert(units_view(units@) =~= pre.update(j as int, uv));
                }
            },
            None => {
                let mut files: Vec<FileEntry> = Vec::new();
                files.push(clone_entry(e));
                let u = Unit { key: k, files };
                proof {
                    let uv = UnitV { key: k@, files: seq![e@] };
                    assert(u@.files =~= seq![e@]);
                    assert(u@ == uv);
                }
                units.push(u);
                proof {
                    assert(units_view(units@) =~= pre.push(
                        UnitV { key: k@, files: seq![e@] },
                    ));
                }
            },
        }
        i = i + 1;
        proof {
            let evs = entries_view(entries@.take(i as int));
            assert(evs.drop_last() =~= entries_view(entries@.take(i as int - 1)));
            assert(evs.last() == e@);
            assert(units_view(units@) =~= add_entry(pre, e@));
        }
    }
    proof {
        assert(entries@.take(entries@.len() as int) =~= entries@);
        lemma_grouping_partition(entries_view(entries@));
    }
    units
}

} // verus!
