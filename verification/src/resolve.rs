//! Resolving each photo unit into the values the sequence detector reads:
//! a capture time, a burst ordinal, and an optional HDR shot ordinal.
//!
//! The metadata collaborator is queried outside the library, one
//! representative file per unit; its answers arrive here as a cache of
//! [`ExifData`] records keyed by unit key. A unit resolves only when it holds
//! a photo file and the cache holds its record; a record without a usable
//! capture time falls back to the caller's `now`, so that such units sort
//! last and never chain into an earlier sequence.

use vstd::prelude::*;
use crate::bytes::clone_bytes;
use crate::classify::{is_jpeg_name, is_photo_name, is_jpeg_file, is_photo_file};
use crate::group::{FileEntry, FileEntryV, Unit, UnitV, units_view};
use crate::meta::{ExifData, ExifDataV, exif_burst_of, exif_date_of, exif_hdr_of};
use crate::time::Timestamp;

verus! {

/// A unit resolved for sequence detection.
#[derive(Debug, PartialEq, Eq)]
pub struct ResolvedUnit {
    pub key: Vec<u8>,
    pub burst: u32,
    pub hdr: Option<u32>,
    pub time: Timestamp,
}

/// Mathematical image of a [`ResolvedUnit`].
pub struct ResolvedUnitV {
    pub key: Seq<u8>,
    pub burst: u32,
    pub hdr: Option<u32>,
    pub time: Timestamp,
}

impl View for ResolvedUnit {
    type V = ResolvedUnitV;

    open spec fn view(&self) -> ResolvedUnitV {
        ResolvedUnitV { key: self.key@, burst: self.burst, hdr: self.hdr, time: self.time }
    }
}

/// Mathematical image of a list of resolved units.
pub open spec fn resolved_view(v: Seq<ResolvedUnit>) -> Seq<ResolvedUnitV> {
    v.map_values(|u: ResolvedUnit| u@)
}

/// One answer of the metadata collaborator, keyed by unit key.
pub struct MetaEntry {
    pub key: Vec<u8>,
    pub exif: ExifData,
}

/// Mathematical image of a [`MetaEntry`].
pub struct MetaEntryV {
    pub key: Seq<u8>,
    pub exif: ExifDataV,
}

impl View for MetaEntry {
    type V = MetaEntryV;

    open spec fn view(&self) -> MetaEntryV {
        MetaEntryV { key: self.key@, exif: self.exif@ }
    }
}

/// Mathematical image of a metadata cache.
pub open spec fn cache_view(v: Seq<MetaEntry>) -> Seq<MetaEntryV> {
    v.map_values(|e: MetaEntry| e@)
}

/// The first cached record under this key, if any.
pub open spec fn cache_lookup(cache: Seq<MetaEntryV>, k: Seq<u8>) -> Option<ExifDataV>
    decreases cache.len(),
{
    if cache.len() == 0 {
        None
    } else if cache[0].key == k {
        Some(cache[0].exif)
    } else {
        cache_lookup(cache.drop_first(), k)
    }
}

/// Looks a unit key up in the metadata cache.
pub fn cache_get<'a>(cache: &'a Vec<MetaEntry>, k: &[u8]) -> (r: Option<&'a ExifData>)
    ensures
        match r {
            Some(e) => cache_lookup(cache_view(cache@), k@) == Some(e@),
            None => cache_lookup(cache_view(cache@), k@) == None::<ExifDataV>,
        },
{
    let ghost cv = cache_view(cache@);
    let mut i: usize = 0;
    proof {
        assert(cv.skip(0) =~= cv);
    }
    while i < cache.len()
        invariant
            i <= cache@.len(),
            cv == cache_view(cache@),
            cache_lookup(cv, k@) == cache_lookup(cv.skip(i as int), k@),
        decreases cache@.len() - i,
    {
        if crate::bytes::bytes_eq(cache[i].key.as_slice(), k) {
            proof {
                assert(cv.skip(i as int)[0] == cv[i as int]);
            }
            return Some(&cache[i].exif);
        }
        proof {
            assert(cv.skip(i as int)[0] == cv[i as int]);
            assert(cv.skip(i as int).drop_first() =~= cv.skip(i as int + 1));
        }
        i = i + 1;
    }
    proof {
        assert(cv.skip(cache@.len() as int).len() == 0);
    }
    None
}

/// Index of the first JPEG file in the unit, `-1` when there is none.
pub open spec fn first_jpeg(files: Seq<FileEntryV>) -> int
    decreases files.len(),
{
    if files.len() == 0 {
        -1
    } else if is_jpeg_name(files[0].name) {
        0
    } else if first_jpeg(files.drop_first()) == -1 {
        -1
    } else {
        1 + first_jpeg(files.drop_first())
    }
}

/// Index of the first photo file (raw or JPEG) in the unit, `-1` when there
/// is none.
pub open spec fn first_photo(files: Seq<FileEntryV>) -> int
    decreases files.len(),
{
    if files.len() == 0 {
        -1
    } else if is_photo_name(files[0].name) {
        0
    } else if first_photo(files.drop_first()) == -1 {
        -1
    } else {
        1 + first_photo(files.drop_first())
    }
}

/// The representative file of a unit: the first JPEG, else the first photo,
/// `-1` when the unit holds no photo at all.
pub open spec fn rep_index(files: Seq<FileEntryV>) -> int {
    if first_jpeg(files) >= 0 {
        first_jpeg(files)
    } else {
        first_photo(files)
    }
}

/// The unit holds at least one photo file.
pub open spec fn has_photo(files: Seq<FileEntryV>) -> bool {
    first_photo(files) >= 0
}

pub proof fn lemma_first_jpeg(files: Seq<FileEntryV>)
    ensures
        -1 <= first_jpeg(files) < files.len(),
        first_jpeg(files) == -1 ==> forall|i: int|
            0 <= i < files.len() ==> !is_jpeg_name((#[trigger] files[i]).name),
        first_jpeg(files) >= 0 ==> is_jpeg_name(files[first_jpeg(files)].name),
        first_jpeg(files) >= 0 ==> forall|i: int|
            0 <= i < first_jpeg(files) ==> !is_jpeg_name((#[trigger] files[i]).name),
    decreases files.len(),
{
    if files.len() > 0 && !is_jpeg_name(files[0].name) {
        lemma_first_jpeg(files.drop_first());
        let fr = first_jpeg(files.drop_first());
        assert(forall|i: int|
            1 <= i < files.len() ==> files[i] == #[trigger] files.drop_first()[i - 1]);
        if fr == -1 {
            assert forall|i: int|
                0 <= i < files.len() implies !is_jpeg_name((#[trigger] files[i]).name) by {
                if i >= 1 {
                    assert(!is_jpeg_name(files.drop_first()[i - 1].name));
                }
            }
        } else {
            assert(first_jpeg(files) == 1 + fr);
            assert(files[1 + fr] == files.drop_first()[fr]);
            assert forall|i: int|
                0 <= i < 1 + fr implies !is_jpeg_name((#[trigger] files[i]).name) by {
                if i >= 1 {
                    assert(!is_jpeg_name(files.drop_first()[i - 1].name));
                }
            }
        }
    }
}

pub proof fn lemma_first_photo(files: Seq<FileEntryV>)
    ensures
        -1 <= first_photo(files) < files.len(),
        first_photo(files) == -1 ==> forall|i: int|
            0 <= i < files.len() ==> !is_photo_name((#[trigger] files[i]).name),
        first_photo(files) >= 0 ==> is_photo_name(files[first_photo(files)].name),
        first_photo(files) >= 0 ==> forall|i: int|
            0 <= i < first_photo(files) ==> !is_photo_name((#[trigger] files[i]).name),
    decreases files.len(),
{
    if files.len() > 0 && !is_photo_name(files[0].name) {
        lemma_first_photo(files.drop_first());
        let fr = first_photo(files.drop_first());
        assert(forall|i: int|
            1 <= i < files.len() ==> files[i] == #[trigger] files.drop_first()[i - 1]);
        if fr == -1 {
            assert forall|i: int|
                0 <= i < files.len() implies !is_photo_name((#[trigger] files[i]).name) by {
                if i >= 1 {
                    assert(!is_photo_name(files.drop_first()[i - 1].name));
                }
            }
        } else {
            assert(first_photo(files) == 1 + fr);
            assert(files[1 + fr] == files.drop_first()[fr]);
            assert forall|i: int|
                0 <= i < 1 + fr implies !is_photo_name((#[trigger] files[i]).name) by {
                if i >= 1 {
                    assert(!is_photo_name(files.drop_first()[i - 1].name));
                }
            }
        }
    }
}

/// Index of the unit's representative file: its first JPEG, else its first
/// photo; `None` when the unit holds no photo.
pub fn representative_index(files: &Vec<FileEntry>) -> (r: Option<usize>)
    ensures
        match r {
            Some(i) => rep_index(crate::group::entries_view(files@)) == i && i < files@.len()
                && has_photo(crate::group::entries_view(files@)),
            None => !has_photo(crate::group::entries_view(files@)),
        },
{
    let ghost fv = crate::group::entries_view(files@);
    proof {
        lemma_first_jpeg(fv);
        lemma_first_photo(fv);
    }
    let mut i: usize = 0;
    while i < files.len()
        invariant
            i <= files@.len(),
            fv == crate::group::entries_view(files@),
            forall|j: int| 0 <= j < i ==> !is_jpeg_name((#[trigger] fv[j]).name),
            -1 <= first_jpeg(fv) < fv.len(),
            first_jpeg(fv) >= 0 ==> is_jpeg_name(fv[first_jpeg(fv)].name),
            first_jpeg(fv) >= 0 ==> forall|j: int|
                0 <= j < first_jpeg(fv) ==> !is_jpeg_name((#[trigger] fv[j]).name),
        decreases files@.len() - i,
    {
        if is_jpeg_file(files[i].name.as_slice()) {
            proof {
                lemma_first_jpeg(fv);
                lemma_first_photo(fv);
                assert(fv[i as int].name == files@[i as int].name@);
                assert(is_jpeg_name(fv[i as int].name));
                let f = first_jpeg(fv);
                if f == -1 {
                    assert(!is_jpeg_name(fv[i as int].name));
                } else if f < i {
                    assert(!is_jpeg_name(fv[f].name));
                } else if f > i {
                    assert(!is_jpeg_name(fv[i as int].name));
                }
                assert(f == i);
                if first_photo(fv) == -1 {
                    assert(!is_photo_name(fv[i as int].name));
                }
            }
            return Some(i);
        }
        i = i + 1;
    }
    proof {
        if first_jpeg(fv) >= 0 {
            assert(!is_jpeg_name(fv[first_jpeg(fv)].name));
        }
        assert(first_jpeg(fv) == -1);
    }
    let mut i: usize = 0;
    while i < files.len()
        invariant
            i <= files@.len(),
            fv == crate::group::entries_view(files@),
            first_jpeg(fv) == -1,
            forall|j: int| 0 <= j < i ==> !is_photo_name((#[trigger] fv[j]).name),
            -1 <= first_photo(fv) < fv.len(),
            first_photo(fv) >= 0 ==> is_photo_name(fv[first_photo(fv)].name),
            first_photo(fv) >= 0 ==> forall|j: int|
                0 <= j < first_photo(fv) ==> !is_photo_name((#[trigger] fv[j]).name),
        decreases files@.len() - i,
    {
        if is_photo_file(files[i].name.as_slice()) {
            proof {
                lemma_first_photo(fv);
                assert(fv[i as int].name == files@[i as int].name@);
                assert(is_photo_name(fv[i as int].name));
                let f = first_photo(fv);
                if f == -1 {
                    assert(!is_photo_name(fv[i as int].name));
                } else if f < i {
                    assert(!is_photo_name(fv[f].name));
                } else if f > i {
                    assert(!is_photo_name(fv[i as int].name));
                }
                assert(f == i);
            }
            return Some(i);
        }
        i = i + 1;
    }
    proof {
        if first_photo(fv) >= 0 {
            assert(!is_photo_name(fv[first_photo(fv)].name));
        }
        assert(first_photo(fv) == -1);
    }
    None
}

/// What a unit resolves to: present only when the unit holds a photo file
/// and the metadata cache answered for its key. The capture time falls back
/// to `now` when the record has no usable date.
pub open spec fn resolve_unit(u: UnitV, cache: Seq<MetaEntryV>, now: Timestamp) -> Option<
    ResolvedUnitV,
> {
    if has_photo(u.files) {
        match cache_lookup(cache, u.key) {
            Some(e) => Some(
                ResolvedUnitV {
                    key: u.key,
                    burst: exif_burst_of(e),
                    hdr: exif_hdr_of(e),
                    time: match exif_date_of(e) {
                        Some(t) => t,
                        None => now,
                    },
                },
            ),
            None => None,
        }
    } else {
        None
    }
}

/// The resolved units of a unit list, in list order.
pub open spec fn resolve_spec(units: Seq<UnitV>, cache: Seq<MetaEntryV>, now: Timestamp) -> Seq<
    ResolvedUnitV,
>
    decreases units.len(),
{
    if units.len() == 0 {
        Seq::empty()
    } else {
        resolve_spec(units.drop_last(), cache, now) + (match resolve_unit(
            units.last(),
            cache,
            now,
        ) {
            Some(r) => seq![r],
            None => Seq::empty(),
        })
    }
}

/// Resolves every unit that holds a photo file and has a cached metadata
/// record; other units are left for the planner's fallback handling.
#[verifier::rlimit(50)]
pub fn resolve_units(units: &Vec<Unit>, cache: &Vec<MetaEntry>, now: Timestamp) -> (r: Vec<
    ResolvedUnit,
>)
    ensures
        resolved_view(r@) == resolve_spec(units_view(units@), cache_view(cache@), now),
{
    let ghost uv = units_view(units@);
    let ghost cv = cache_view(cache@);
    let mut out: Vec<ResolvedUnit> = Vec::new();
    let mut i: usize = 0;
    proof {
        assert(uv.take(0) =~= Seq::<UnitV>::empty());
        assert(resolved_view(out@) =~= resolve_spec(uv.take(0), cv, now));
    }
    while i < units.len()
        invariant
            i <= units@.len(),
            uv == units_view(units@),
            cv == cache_view(cache@),
            resolved_view(out@) == resolve_spec(uv.take(i as int), cv, now),
        decreases units@.len() - i,
    {
        let u = &units[i];
        let ghost pre = resolved_view(out@);
        match representative_index(&u.files) {
            Some(_) => {
                match cache_get(cache, u.key.as_slice()) {
                    Some(exif) => {
                        let date = crate::meta::get_exif_date(exif);
                        let time = match date {
                            Some(t) => t,
                            None => now,
                        };
                        let ru = ResolvedUnit {
                            key: clone_bytes(&u.key),
                            burst: crate::meta::get_sequence_info(exif),
                            hdr: crate::meta::get_hdr_info(exif),
                            time,
                        };
                        proof {
                            assert(resolve_unit(uv[i as int], cv, now) == Some(ru@));
                        }
                        out.push(ru);
                        proof {
                            assert(resolved_view(out@) =~= pre.push(
                                resolve_unit(uv[i as int], cv, now).unwrap(),
                            ));
                        }
                    },
                    None => {
                        proof {
                            assert(resolve_unit(uv[i as int], cv, now) is None);
                        }
                    },
                }
            },
            None => {
                proof {
                    assert(!has_photo(uv[i as int].files));
                    assert(resolve_unit(uv[i as int], cv, now) is None);
                }
            },
        }
        i = i + 1;
        proof {
            assert(uv.take(i as int).drop_last() =~= uv.take(i as int - 1));
            assert(uv.take(i as int).last() == uv[i as int - 1]);
            match resolve_unit(uv[i as int - 1], cv, now) {
                Some(r) => {
                    assert(resolved_view(out@) =~= resolve_spec(uv.take(i as int - 1), cv, now)
                        + seq![r]);
                },
                None => {
                    assert(resolved_view(out@) =~= resolve_spec(uv.take(i as int - 1), cv, now)
                        + Seq::<ResolvedUnitV>::empty());
                },
            }
        }
    }
    proof {
        assert(uv.take(uv.len() as int) =~= uv);
    }
    out
}

/// The keys of a resolved-unit list are pairwise distinct.
pub open spec fn resolved_keys_distinct(rs: Seq<ResolvedUnitV>) -> bool {
    forall|i: int, j: int|
        0 <= i < j < rs.len() ==> (#[trigger] rs[i]).key != (#[trigger] rs[j]).key
}

/// A resolved-unit list only carries keys of the units it came from.
pub open spec fn resolved_keys_from(rs: Seq<ResolvedUnitV>, units: Seq<UnitV>) -> bool {
    forall|j: int|
        0 <= j < rs.len() ==> exists|i: int|
            0 <= i < units.len() && (#[trigger] rs[j]).key == (#[trigger] units[i]).key
}

/// Resolution keeps unit keys distinct: of a unit list with pairwise
/// distinct keys, the resolved units carry pairwise distinct keys too.
pub proof fn lemma_resolve_distinct(units: Seq<UnitV>, cache: Seq<MetaEntryV>, now: Timestamp)
    requires
        forall|i: int, j: int|
            0 <= i < j < units.len() ==> (#[trigger] units[i]).key != (#[trigger] units[j]).key,
    ensures
        resolved_keys_distinct(resolve_spec(units, cache, now)),
        resolved_keys_from(resolve_spec(units, cache, now), units),
    decreases units.len(),
{
    if units.len() > 0 {
        let pre = units.drop_last();
        let rs = resolve_spec(units, cache, now);
        let rp = resolve_spec(pre, cache, now);
        assert(forall|i: int| 0 <= i < pre.len() ==> pre[i] == #[trigger] units[i]);
        lemma_resolve_distinct(pre, cache, now);
        match resolve_unit(units.last(), cache, now) {
            Some(r) => {
                assert(rs =~= rp + seq![r]);
                assert(r.key == units.last().key);
                assert forall|j: int| 0 <= j < rp.len() implies (#[trigger] rp[j]).key != r.key by {
                    let i = choose|i: int|
                        0 <= i < pre.len() && rp[j].key == (#[trigger] pre[i]).key;
                    assert(units[i].key != units[units.len() - 1].key);
                }
                assert forall|j: int| 0 <= j < rs.len() implies exists|i: int|
                    0 <= i < units.len() && (#[trigger] rs[j]).key == (#[trigger] units[i]).key by {
                    if j < rp.len() {
                        let i = choose|i: int|
                            0 <= i < pre.len() && rp[j].key == (#[trigger] pre[i]).key;
                        assert(rs[j].key == units[i].key);
                    } else {
                        assert(rs[j].key == units[units.len() - 1].key);
                    }
                }
            },
            None => {
                assert(rs =~= rp);
                assert forall|j: int| 0 <= j < rs.len() implies exists|i: int|
                    0 <= i < units.len() && (#[trigger] rs[j]).key == (#[trigger] units[i]).key by {
                    let i = choose|i: int|
                        0 <= i < pre.len() && rp[j].key == (#[trigger] pre[i]).key;
                    assert(rs[j].key == units[i].key);
                }
            },
        }
    }
}

} // verus!
