//! Sequence detection: sorting the resolved units by (capture time, key) and
//! tagging runs of consecutive units as HDR brackets or bursts.
//!
//! The detector walks the sorted list twice. The first pass follows the HDR
//! shot ordinal: a run starts at ordinal 1, continues while each unit shows
//! the next ordinal, and is tagged only when it gathered at least two
//! members. The second pass does the same with the burst ordinal (where 0
//! means "not in a burst"), restricted to units the first pass left
//! untagged — HDR wins unconditionally.

use vstd::prelude::*;
use vstd::string::StringSliceAdditionalSpecFns;
use crate::bytes::{clone_bytes, lex_lt, lemma_lex_lt_irreflexive, lemma_lex_lt_total,
    lemma_lex_lt_transitive};
use crate::resolve::{ResolvedUnit, ResolvedUnitV, resolved_view, resolved_keys_distinct};
use crate::time::{ts_lt, lemma_ts_lt_total, lemma_ts_lt_transitive, ts_before};

verus! {

broadcast use {vstd::seq_lib::group_to_multiset_ensures, vstd::multiset::group_multiset_axioms};

/// Detection order: capture time ascending, unit key ascending as the
/// tie-break.
pub open spec fn unit_lt(a: ResolvedUnitV, b: ResolvedUnitV) -> bool {
    ts_lt(a.time, b.time) || (a.time == b.time && lex_lt(a.key, b.key))
}

/// Detection order, reflexive over equal (time, key).
pub open spec fn unit_le(a: ResolvedUnitV, b: ResolvedUnitV) -> bool {
    unit_lt(a, b) || (a.time == b.time && a.key == b.key)
}

/// The sequence is sorted in detection order.
pub open spec fn units_sorted(s: Seq<ResolvedUnitV>) -> bool {
    forall|i: int, j: int| 0 <= i < j < s.len() ==> unit_le(#[trigger] s[i], #[trigger] s[j])
}

/// Detection order is total.
pub proof fn lemma_unit_le_total(a: ResolvedUnitV, b: ResolvedUnitV)
    ensures
        unit_le(a, b) || unit_le(b, a),
{
    lemma_ts_lt_total(a.time, b.time);
    lemma_lex_lt_total(a.key, b.key);
}

/// Two units cannot each come strictly before the other.
pub proof fn lemma_unit_lt_asymmetric(a: ResolvedUnitV, b: ResolvedUnitV)
    ensures
        !(unit_lt(a, b) && unit_lt(b, a)),
{
    if unit_lt(a, b) && unit_lt(b, a) {
        if ts_lt(a.time, b.time) {
            lemma_ts_lt_total(a.time, b.time);
            lemma_ts_lt_transitive(a.time, b.time, a.time);
        } else {
            lemma_lex_lt_transitive(a.key, b.key, a.key);
            lemma_lex_lt_irreflexive(a.key);
        }
    }
}

/// Copies a resolved unit.
pub fn clone_resolved(u: &ResolvedUnit) -> (r: ResolvedUnit)
    ensures
        r@ == u@,
{
    ResolvedUnit { key: clone_bytes(&u.key), burst: u.burst, hdr: u.hdr, time: u.time }
}

/// Detection-order comparison.
pub fn unit_not_after(a: &ResolvedUnit, b: &ResolvedUnit) -> (r: bool)
    ensures
        r == unit_le(a@, b@),
{
    if ts_before(&a.time, &b.time) {
        return true;
    }
    if a.time.year == b.time.year && a.time.month == b.time.month && a.time.day == b.time.day
        && a.time.hour == b.time.hour && a.time.minute == b.time.minute && a.time.second
        == b.time.second {
        proof {
            assert(a@.time == b@.time);
        }
        if crate::bytes::bytes_lt(a.key.as_slice(), b.key.as_slice()) {
            return true;
        }
        return crate::bytes::bytes_eq(a.key.as_slice(), b.key.as_slice());
    }
    proof {
        assert(a@.time != b@.time);
    }
    false
}

/// Inserts a unit at its place in a sorted sequence, counting from the back.
pub open spec fn insert_sorted(s: Seq<ResolvedUnitV>, u: ResolvedUnitV) -> Seq<ResolvedUnitV>
    decreases s.len(),
{
    if s.len() == 0 {
        seq![u]
    } else if unit_le(s.last(), u) {
        s.push(u)
    } else {
        insert_sorted(s.drop_last(), u).push(s.last())
    }
}

/// Insertion sort of the resolved units in detection order: the canonical
/// sorted form the detector works on.
pub open spec fn sort_spec(s: Seq<ResolvedUnitV>) -> Seq<ResolvedUnitV>
    decreases s.len(),
{
    if s.len() == 0 {
        s
    } else {
        insert_sorted(sort_spec(s.drop_last()), s.last())
    }
}

/// Where `insert_sorted` puts the new unit: before exactly the tail elements
/// that come strictly after it.
proof fn lemma_insert_sorted_at(s: Seq<ResolvedUnitV>, u: ResolvedUnitV, p: int)
    requires
        0 <= p <= s.len(),
        p > 0 ==> unit_le(s[p - 1], u),
        forall|q: int| p <= q < s.len() ==> !unit_le(#[trigger] s[q], u),
    ensures
        insert_sorted(s, u) =~= s.take(p) + seq![u] + s.skip(p),
    decreases s.len(),
{
    if s.len() == 0 {
    } else if unit_le(s.last(), u) {
        assert(p == s.len());
        assert(s.take(p) =~= s);
        assert(s.skip(p) =~= Seq::<ResolvedUnitV>::empty());
    } else {
        assert(p < s.len());
        lemma_insert_sorted_at(s.drop_last(), u, p);
        assert(s.drop_last().take(p) =~= s.take(p));
        assert(s.drop_last().skip(p).push(s.last()) =~= s.skip(p));
    }
}

/// Inserting keeps the sequence sorted and adds exactly the new unit.
proof fn lemma_insert_sorted_ensures(s: Seq<ResolvedUnitV>, u: ResolvedUnitV)
    requires
        units_sorted(s),
    ensures
        units_sorted(insert_sorted(s, u)),
        insert_sorted(s, u).to_multiset() =~= s.to_multiset().insert(u),
        insert_sorted(s, u).len() == s.len() + 1,
    decreases s.len(),
{
    if s.len() == 0 {
        assert(seq![u] =~= Seq::<ResolvedUnitV>::empty().push(u));
    } else if unit_le(s.last(), u) {
        let out = s.push(u);
        assert forall|i: int, j: int|
            0 <= i < j < out.len() implies unit_le(#[trigger] out[i], #[trigger] out[j]) by {
            if j == out.len() - 1 {
                if i < s.len() - 1 {
                    assert(unit_le(s[i], s[s.len() - 1]));
                    lemma_unit_le_transitive(s[i], s[s.len() - 1], u);
                }
            }
        }
    } else {
        let rest = insert_sorted(s.drop_last(), u);
        assert(forall|i: int, j: int|
            0 <= i < j < s.drop_last().len() ==> unit_le(
                #[trigger] s.drop_last()[i],
                #[trigger] s.drop_last()[j],
            ));
        lemma_insert_sorted_ensures(s.drop_last(), u);
        let out = rest.push(s.last());
        lemma_unit_le_total(s.last(), u);
        assert(unit_le(u, s.last()));
        assert forall|i: int, j: int|
            0 <= i < j < out.len() implies unit_le(#[trigger] out[i], #[trigger] out[j]) by {
            if j == out.len() - 1 {
                assert(rest.to_multiset().contains(rest[i]));
                if s.drop_last().to_multiset().contains(rest[i]) {
                    let m = choose|m: int|
                        0 <= m < s.drop_last().len() && #[trigger] s.drop_last()[m] == rest[i];
                    assert(unit_le(s[m], s[s.len() - 1]));
                    assert(unit_le(rest[i], s.last()));
                } else {
                    assert(rest[i] == u);
                }
            }
        }
        assert(s.drop_last().push(s.last()) =~= s);
        assert(s.drop_last().push(s.last()).to_multiset() =~= s.drop_last()
            .to_multiset().insert(s.last()));
    }
}

/// Detection order is transitive.
pub proof fn lemma_unit_le_transitive(a: ResolvedUnitV, b: ResolvedUnitV, c: ResolvedUnitV)
    requires
        unit_le(a, b),
        unit_le(b, c),
    ensures
        unit_le(a, c),
{
    if unit_lt(a, b) && unit_lt(b, c) {
        if ts_lt(a.time, b.time) && ts_lt(b.time, c.time) {
            lemma_ts_lt_transitive(a.time, b.time, c.time);
        } else if !ts_lt(a.time, b.time) && !ts_lt(b.time, c.time) {
            lemma_lex_lt_transitive(a.key, b.key, c.key);
        }
    }
}

/// The canonical sort is sorted and a permutation of its input.
pub proof fn lemma_sort_spec_ensures(s: Seq<ResolvedUnitV>)
    ensures
        units_sorted(sort_spec(s)),
        sort_spec(s).to_multiset() =~= s.to_multiset(),
        sort_spec(s).len() == s.len(),
    decreases s.len(),
{
    if s.len() > 0 {
        lemma_sort_spec_ensures(s.drop_last());
        lemma_insert_sorted_ensures(sort_spec(s.drop_last()), s.last());
        assert(s.drop_last().push(s.last()) =~= s);
        assert(s.drop_last().push(s.last()).to_multiset() =~= s.drop_last()
            .to_multiset().insert(s.last()));
    }
}

/// Sorts the resolved units by (capture time, key).
pub fn sort_units(units: &Vec<ResolvedUnit>) -> (r: Vec<ResolvedUnit>)
    ensures
        resolved_view(r@) == sort_spec(resolved_view(units@)),
{
    let ghost uv = resolved_view(units@);
    let mut out: Vec<ResolvedUnit> = Vec::new();
    let mut i: usize = 0;
    proof {
        assert(resolved_view(out@) =~= sort_spec(uv.take(0)));
    }
    while i < units.len()
        invariant
            i <= units@.len(),
            uv == resolved_view(units@),
            resolved_view(out@) == sort_spec(uv.take(i as int)),
        decreases units@.len() - i,
    {
        let u = clone_resolved(&units[i]);
        let ghost pre = resolved_view(out@);
        let mut p: usize = out.len();
        while p > 0 && !unit_not_after(&out[p - 1], &u)
            invariant
                p <= out@.len(),
                pre == resolved_view(out@),
                u@ == uv[i as int],
                i < uv.len(),
                forall|q: int| p <= q < pre.len() ==> !unit_le(#[trigger] pre[q], u@),
            decreases p,
        {
            p = p - 1;
        }
        proof {
            lemma_insert_sorted_at(pre, u@, p as int);
        }
        out.insert(p, u);
        i = i + 1;
        proof {
            assert(out@.map_values(|x: ResolvedUnit| x@) =~= pre.take(p as int) + seq![uv[i as int
                - 1]] + pre.skip(p as int));
            assert(uv.take(i as int).drop_last() =~= uv.take(i as int - 1));
            assert(uv.take(i as int).last() == uv[i as int - 1]);
            assert(resolved_view(out@) =~= insert_sorted(pre, uv[i as int - 1]));
        }
    }
    proof {
        assert(uv.take(uv.len() as int) =~= uv);
    }
    out
}

/// A sequence tag: the folder a unit's files go to, as a burst or an HDR
/// bracket member.
#[derive(Debug, PartialEq, Eq)]
pub enum SequenceTag {
    Burst(Vec<u8>),
    Hdr(Vec<u8>),
}

/// Mathematical image of a [`SequenceTag`].
pub enum SequenceTagV {
    Burst(Seq<u8>),
    Hdr(Seq<u8>),
}

impl View for SequenceTag {
    type V = SequenceTagV;

    open spec fn view(&self) -> SequenceTagV {
        match self {
            SequenceTag::Burst(f) => SequenceTagV::Burst(f@),
            SequenceTag::Hdr(f) => SequenceTagV::Hdr(f@),
        }
    }
}

/// One tagged unit: its key and its tag.
#[derive(Debug, PartialEq, Eq)]
pub struct TagEntry {
    pub key: Vec<u8>,
    pub tag: SequenceTag,
}

/// Mathematical image of a [`TagEntry`].
pub struct TagEntryV {
    pub key: Seq<u8>,
    pub tag: SequenceTagV,
}

impl View for TagEntry {
    type V = TagEntryV;

    open spec fn view(&self) -> TagEntryV {
        TagEntryV { key: self.key@, tag: self.tag@ }
    }
}

/// Mathematical image of a tag list.
pub open spec fn tag_entries_view(v: Seq<TagEntry>) -> Seq<TagEntryV> {
    v.map_values(|e: TagEntry| e@)
}

/// The map a tag list denotes; a later entry would win, though the detector
/// never writes one key twice.
pub open spec fn tags_map(es: Seq<TagEntryV>) -> Map<Seq<u8>, SequenceTagV>
    decreases es.len(),
{
    if es.len() == 0 {
        Map::empty()
    } else {
        tags_map(es.drop_last()).insert(es.last().key, es.last().tag)
    }
}

/// One unit tagged with the folder its sequence run is named after.
pub struct FolderTag {
    pub key: Vec<u8>,
    pub folder: Vec<u8>,
}

/// Mathematical image of a [`FolderTag`].
pub struct FolderTagV {
    pub key: Seq<u8>,
    pub folder: Seq<u8>,
}

impl View for FolderTag {
    type V = FolderTagV;

    open spec fn view(&self) -> FolderTagV {
        FolderTagV { key: self.key@, folder: self.folder@ }
    }
}

/// Mathematical image of a folder-tag list.
pub open spec fn folder_view(v: Seq<FolderTag>) -> Seq<FolderTagV> {
    v.map_values(|e: FolderTag| e@)
}

/// The key-to-folder map a folder-tag list denotes.
pub open spec fn folder_map(es: Seq<FolderTagV>) -> Map<Seq<u8>, Seq<u8>>
    decreases es.len(),
{
    if es.len() == 0 {
        Map::empty()
    } else {
        folder_map(es.drop_last()).insert(es.last().key, es.last().folder)
    }
}

/// A key is in the folder map exactly when some entry carries it.
pub proof fn lemma_folder_map_dom(es: Seq<FolderTagV>, k: Seq<u8>)
    ensures
        folder_map(es).contains_key(k) <==> exists|i: int|
            0 <= i < es.len() && (#[trigger] es[i]).key == k,
    decreases es.len(),
{
    if es.len() > 0 {
        lemma_folder_map_dom(es.drop_last(), k);
        if es.last().key == k {
            assert(es[es.len() - 1].key == k);
        } else if exists|i: int|
            0 <= i < es.drop_last().len() && (#[trigger] es.drop_last()[i]).key == k {
            let i = choose|i: int|
                0 <= i < es.drop_last().len() && (#[trigger] es.drop_last()[i]).key == k;
            assert(es[i].key == k);
        } else if exists|i: int| 0 <= i < es.len() && (#[trigger] es[i]).key == k {
            let i = choose|i: int| 0 <= i < es.len() && (#[trigger] es[i]).key == k;
            assert(es.drop_last()[i].key == k);
        }
    }
}

/// The folder-name suffix of an HDR run.
pub open spec fn hdr_suffix() -> Seq<u8> {
    "_HDR".spec_bytes()
}

/// The folder-name suffix of a burst run.
pub open spec fn burst_suffix() -> Seq<u8> {
    "_BURST".spec_bytes()
}

/// State of one detection pass: the keys of the open run, the ordinal the
/// next member must show, the folder name the run would be tagged with
/// (first key of the run plus the suffix), and the tags settled so far.
pub struct PassState {
    pub run: Seq<Seq<u8>>,
    pub expected: nat,
    pub name: Seq<u8>,
    pub tags: Map<Seq<u8>, Seq<u8>>,
}

/// Tags every key of the run with the run's folder name.
pub open spec fn tag_run(tags: Map<Seq<u8>, Seq<u8>>, run: Seq<Seq<u8>>, name: Seq<u8>) -> Map<
    Seq<u8>,
    Seq<u8>,
>
    decreases run.len(),
{
    if run.len() == 0 {
        tags
    } else {
        tag_run(tags, run.drop_last(), name).insert(run.last(), name)
    }
}

/// Closes the open run: its members are tagged only when the run gathered at
/// least two of them; a lone member is discarded untagged.
pub open spec fn flush_tags(st: PassState) -> Map<Seq<u8>, Seq<u8>> {
    if st.run.len() >= 2 {
        tag_run(st.tags, st.run, st.name)
    } else {
        st.tags
    }
}

/// Start state of the HDR pass.
pub open spec fn hdr_start() -> PassState {
    PassState { run: Seq::empty(), expected: 1, name: Seq::empty(), tags: Map::empty() }
}

/// One HDR-pass step. Ordinal 1 always opens a new run (closing the old
/// one); the expected next ordinal continues the open run; anything else,
/// or an absent ordinal, closes the run and leaves the unit untagged.
pub open spec fn hdr_step(st: PassState, u: ResolvedUnitV) -> PassState {
    match u.hdr {
        Some(n) => if n == 1 {
            PassState {
                run: seq![u.key],
                expected: 2,
                name: u.key + hdr_suffix(),
                tags: flush_tags(st),
            }
        } else if n as nat == st.expected && st.run.len() > 0 {
            PassState {
                run: st.run.push(u.key),
                expected: st.expected + 1,
                name: st.name,
                tags: st.tags,
            }
        } else {
            PassState { run: Seq::empty(), expected: 1, name: st.name, tags: flush_tags(st) }
        },
        None => PassState { run: Seq::empty(), expected: 1, name: st.name, tags: flush_tags(st) },
    }
}

/// HDR-pass state after walking the whole sequence.
pub open spec fn hdr_state(s: Seq<ResolvedUnitV>) -> PassState
    decreases s.len(),
{
    if s.len() == 0 {
        hdr_start()
    } else {
        hdr_step(hdr_state(s.drop_last()), s.last())
    }
}

/// The HDR tags of a sorted unit sequence: walk once, then close the last
/// run.
pub open spec fn hdr_tags(s: Seq<ResolvedUnitV>) -> Map<Seq<u8>, Seq<u8>> {
    flush_tags(hdr_state(s))
}

/// Start state of the burst pass.
pub open spec fn burst_start() -> PassState {
    PassState { run: Seq::empty(), expected: 0, name: Seq::empty(), tags: Map::empty() }
}

/// One burst-pass step: as the HDR step over the burst ordinal, where 0
/// plays "absent", restricted to units the HDR pass left untagged.
pub open spec fn burst_step(st: PassState, u: ResolvedUnitV, h: Map<Seq<u8>, Seq<u8>>) -> PassState {
    if h.contains_key(u.key) {
        st
    } else if u.burst == 0 {
        PassState { run: Seq::empty(), expected: 0, name: st.name, tags: flush_tags(st) }
    } else if u.burst == 1 {
        PassState {
            run: seq![u.key],
            expected: 2,
            name: u.key + burst_suffix(),
            tags: flush_tags(st),
        }
    } else if u.burst as nat == st.expected && st.run.len() > 0 {
        PassState {
            run: st.run.push(u.key),
            expected: st.expected + 1,
            name: st.name,
            tags: st.tags,
        }
    } else {
        PassState { run: Seq::empty(), expected: 0, name: st.name, tags: flush_tags(st) }
    }
}

/// Burst-pass state after walking the whole sequence.
pub open spec fn burst_state(s: Seq<ResolvedUnitV>, h: Map<Seq<u8>, Seq<u8>>) -> PassState
    decreases s.len(),
{
    if s.len() == 0 {
        burst_start()
    } else {
        burst_step(burst_state(s.drop_last(), h), s.last(), h)
    }
}

/// The burst tags of a sorted unit sequence, given the HDR tags.
pub open spec fn burst_tags(s: Seq<ResolvedUnitV>, h: Map<Seq<u8>, Seq<u8>>) -> Map<
    Seq<u8>,
    Seq<u8>,
> {
    flush_tags(burst_state(s, h))
}

/// Folder map read as HDR tags.
pub open spec fn map_hdr(m: Map<Seq<u8>, Seq<u8>>) -> Map<Seq<u8>, SequenceTagV> {
    Map::new(|k: Seq<u8>| m.contains_key(k), |k: Seq<u8>| SequenceTagV::Hdr(m[k]))
}

/// Folder map read as burst tags.
pub open spec fn map_burst(m: Map<Seq<u8>, Seq<u8>>) -> Map<Seq<u8>, SequenceTagV> {
    Map::new(|k: Seq<u8>| m.contains_key(k), |k: Seq<u8>| SequenceTagV::Burst(m[k]))
}

/// What the detector tags a list of resolved units with: sort by (capture
/// time, key), tag HDR runs, then tag burst runs among the untagged units.
/// An HDR tag always wins over a burst tag.
pub open spec fn tags_of(s: Seq<ResolvedUnitV>) -> Map<Seq<u8>, SequenceTagV> {
    let sorted = sort_spec(s);
    let h = hdr_tags(sorted);
    map_burst(burst_tags(sorted, h)).union_prefer_right(map_hdr(h))
}

/// Mathematical image of a run of unit keys.
pub open spec fn keys_view(v: Seq<Vec<u8>>) -> Seq<Seq<u8>> {
    v.map_values(|k: Vec<u8>| k@)
}

/// Closes a run: when it gathered at least two members, every member is
/// tagged with the run's folder name.
fn flush_run(tags: &mut Vec<FolderTag>, run: &Vec<Vec<u8>>, name: &Vec<u8>) -> (nothing: ())
    ensures
        folder_map(folder_view(final(tags)@)) == flush_tags(
            PassState {
                run: keys_view(run@),
                expected: 0,
                name: name@,
                tags: folder_map(folder_view(old(tags)@)),
            },
        ),
{
    let ghost base = folder_map(folder_view(old(tags)@));
    if run.len() >= 2 {
        let mut j: usize = 0;
        proof {
            assert(keys_view(run@).take(0) =~= Seq::<Seq<u8>>::empty());
        }
        while j < run.len()
            invariant
                j <= run@.len(),
                base == folder_map(folder_view(old(tags)@)),
                folder_map(folder_view(tags@)) == tag_run(
                    base,
                    keys_view(run@).take(j as int),
                    name@,
                ),
            decreases run@.len() - j,
        {
            let ghost pre = tags@;
            tags.push(FolderTag { key: clone_bytes(&run[j]), folder: clone_bytes(name) });
            j = j + 1;
            proof {
                assert(tags@.drop_last() =~= pre);
                assert(folder_view(tags@).drop_last() =~= folder_view(pre));
                assert(folder_view(tags@).last() == FolderTagV {
                    key: run@[j as int - 1]@,
                    folder: name@,
                });
                assert(folder_map(folder_view(tags@)) == folder_map(folder_view(pre)).insert(
                    run@[j as int - 1]@,
                    name@,
                ));
                assert(keys_view(run@).take(j as int).drop_last() =~= keys_view(run@).take(
                    j as int - 1,
                ));
                assert(keys_view(run@).take(j as int).last() == run@[j as int - 1]@);
            }
        }
        proof {
            assert(keys_view(run@).take(run@.len() as int) =~= keys_view(run@));
        }
    }
}

/// First pass: tags runs of consecutive units whose HDR shot ordinals climb
/// 1, 2, 3, ... with the folder named after the run's first key.
fn hdr_pass(sorted: &Vec<ResolvedUnit>) -> (r: Vec<FolderTag>)
    ensures
        folder_map(folder_view(r@)) == hdr_tags(resolved_view(sorted@)),
{
    let ghost sv = resolved_view(sorted@);
    let mut tags: Vec<FolderTag> = Vec::new();
    let mut run: Vec<Vec<u8>> = Vec::new();
    let mut expected: u64 = 1;
    let mut name: Vec<u8> = Vec::new();
    let mut i: usize = 0;
    proof {
        assert(keys_view(run@) =~= hdr_start().run);
        assert(folder_map(folder_view(tags@)) =~= hdr_start().tags);
        assert(name@ =~= hdr_start().name);
        assert(sv.take(0) =~= Seq::<ResolvedUnitV>::empty());
    }
    while i < sorted.len()
        invariant
            i <= sorted@.len(),
            sv == resolved_view(sorted@),
            keys_view(run@) == hdr_state(sv.take(i as int)).run,
            expected as nat == hdr_state(sv.take(i as int)).expected,
            name@ == hdr_state(sv.take(i as int)).name,
            folder_map(folder_view(tags@)) == hdr_state(sv.take(i as int)).tags,
        decreases sorted@.len() - i,
    {
        let u = &sorted[i];
        let ghost st = hdr_state(sv.take(i as int));
        match u.hdr {
            Some(n) => {
                if n == 1 {
                    flush_run(&mut tags, &run, &name);
                    name = clone_bytes(&u.key);
                    crate::bytes::push_bytes(&mut name, "_HDR".as_bytes());
                    run = Vec::new();
                    run.push(clone_bytes(&u.key));
                    expected = 2;
                    proof {
                        assert(keys_view(run@) =~= seq![sv[i as int].key]);
                    }
                } else if run.len() > 0 && (n as u64) == expected {
                    run.push(clone_bytes(&u.key));
                    expected = expected + 1;
                    proof {
                        assert(keys_view(run@) =~= st.run.push(sv[i as int].key));
                    }
                } else {
                    flush_run(&mut tags, &run, &name);
                    run = Vec::new();
                    expected = 1;
                    proof {
                        assert(keys_view(run@) =~= Seq::<Seq<u8>>::empty());
                    }
                }
            },
            None => {
                flush_run(&mut tags, &run, &name);
                run = Vec::new();
                expected = 1;
                proof {
                    assert(keys_view(run@) =~= Seq::<Seq<u8>>::empty());
                }
            },
        }
        i = i + 1;
        proof {
            assert(sv.take(i as int).drop_last() =~= sv.take(i as int - 1));
            assert(sv.take(i as int).last() == sv[i as int - 1]);
        }
    }
    proof {
        assert(sv.take(sv.len() as int) =~= sv);
    }
    flush_run(&mut tags, &run, &name);
    tags
}

/// A key has a folder tag.
fn folder_contains(tags: &Vec<FolderTag>, k: &[u8]) -> (r: bool)
    ensures
        r == folder_map(folder_view(tags@)).contains_key(k@),
{
    proof {
        lemma_folder_map_dom(folder_view(tags@), k@);
    }
    let mut i: usize = 0;
    while i < tags.len()
        invariant
            i <= tags@.len(),
            forall|j: int| 0 <= j < i ==> (#[trigger] folder_view(tags@)[j]).key != k@,
        decreases tags@.len() - i,
    {
        if crate::bytes::bytes_eq(tags[i].key.as_slice(), k) {
            proof {
                assert(folder_view(tags@)[i as int].key == k@);
                lemma_folder_map_dom(folder_view(tags@), k@);
            }
            return true;
        }
        i = i + 1;
    }
    proof {
        lemma_folder_map_dom(folder_view(tags@), k@);
        if exists|j: int|
            0 <= j < folder_view(tags@).len() && (#[trigger] folder_view(tags@)[j]).key == k@ {
            let j = choose|j: int|
                0 <= j < folder_view(tags@).len() && (#[trigger] folder_view(tags@)[j]).key == k@;
            assert(folder_view(tags@)[j].key != k@);
        }
    }
    false
}

/// Second pass: tags runs of consecutive burst ordinals 1, 2, 3, ... among
/// the units the HDR pass left untagged.
fn burst_pass(sorted: &Vec<ResolvedUnit>, hdr: &Vec<FolderTag>) -> (r: Vec<FolderTag>)
    ensures
        folder_map(folder_view(r@)) == burst_tags(
            resolved_view(sorted@),
            folder_map(folder_view(hdr@)),
        ),
{
    let ghost sv = resolved_view(sorted@);
    let ghost h = folder_map(folder_view(hdr@));
    let mut tags: Vec<FolderTag> = Vec::new();
    let mut run: Vec<Vec<u8>> = Vec::new();
    let mut expected: u64 = 0;
    let mut name: Vec<u8> = Vec::new();
    let mut i: usize = 0;
    proof {
        assert(keys_view(run@) =~= burst_start().run);
        assert(folder_map(folder_view(tags@)) =~= burst_start().tags);
        assert(name@ =~= burst_start().name);
        assert(sv.take(0) =~= Seq::<ResolvedUnitV>::empty());
    }
    while i < sorted.len()
        invariant
            i <= sorted@.len(),
            sv == resolved_view(sorted@),
            h == folder_map(folder_view(hdr@)),
            keys_view(run@) == burst_state(sv.take(i as int), h).run,
            expected as nat == burst_state(sv.take(i as int), h).expected,
            name@ == burst_state(sv.take(i as int), h).name,
            folder_map(folder_view(tags@)) == burst_state(sv.take(i as int), h).tags,
        decreases sorted@.len() - i,
    {
        let u = &sorted[i];
        let ghost st = burst_state(sv.take(i as int), h);
        if folder_contains(hdr, u.key.as_slice()) {
            // an HDR-tagged unit is never reconsidered for burst tagging
        } else if u.burst == 0 {
            flush_run(&mut tags, &run, &name);
            run = Vec::new();
            expected = 0;
            proof {
                assert(keys_view(run@) =~= Seq::<Seq<u8>>::empty());
            }
        } else if u.burst == 1 {
            flush_run(&mut tags, &run, &name);
            name = clone_bytes(&u.key);
            crate::bytes::push_bytes(&mut name, "_BURST".as_bytes());
            run = Vec::new();
            run.push(clone_bytes(&u.key));
            expected = 2;
            proof {
                assert(keys_view(run@) =~= seq![sv[i as int].key]);
            }
        } else if run.len() > 0 && (u.burst as u64) == expected {
            run.push(clone_bytes(&u.key));
            expected = expected + 1;
            proof {
                assert(keys_view(run@) =~= st.run.push(sv[i as int].key));
            }
        } else {
            flush_run(&mut tags, &run, &name);
            run = Vec::new();
            expected = 0;
            proof {
                assert(keys_view(run@) =~= Seq::<Seq<u8>>::empty());
            }
        }
        i = i + 1;
        proof {
            assert(sv.take(i as int).drop_last() =~= sv.take(i as int - 1));
            assert(sv.take(i as int).last() == sv[i as int - 1]);
        }
    }
    proof {
        assert(sv.take(sv.len() as int) =~= sv);
    }
    flush_run(&mut tags, &run, &name);
    tags
}

/// Detects the sequence tags of a list of resolved units: sorts them by
/// (capture time, key), tags HDR runs of length at least two, then burst
/// runs among the units left untagged. Returns one tag per tagged unit key.
pub fn detect_sequences(units: &Vec<ResolvedUnit>) -> (r: Vec<TagEntry>)
    ensures
        tags_map(tag_entries_view(r@)) == tags_of(resolved_view(units@)),
{
    let sorted = sort_units(units);
    let hdr = hdr_pass(&sorted);
    let burst = burst_pass(&sorted, &hdr);
    let ghost h = folder_map(folder_view(hdr@));
    let ghost b = folder_map(folder_view(burst@));
    let mut out: Vec<TagEntry> = Vec::new();
    let mut i: usize = 0;
    proof {
        assert(folder_view(burst@).take(0) =~= Seq::<FolderTagV>::empty());
        assert(tags_map(tag_entries_view(out@)) =~= map_burst(
            folder_map(folder_view(burst@).take(0)),
        ));
    }
    while i < burst.len()
        invariant
            i <= burst@.len(),
            tags_map(tag_entries_view(out@)) == map_burst(
                folder_map(folder_view(burst@).take(i as int)),
            ),
        decreases burst@.len() - i,
    {
        let ghost pre = out@;
        out.push(
            TagEntry {
                key: clone_bytes(&burst[i].key),
                tag: SequenceTag::Burst(clone_bytes(&burst[i].folder)),
            },
        );
        i = i + 1;
        proof {
            assert(out@.drop_last() =~= pre);
            assert(tag_entries_view(out@).drop_last() =~= tag_entries_view(pre));
            assert(tag_entries_view(out@).last() == TagEntryV {
                key: folder_view(burst@)[i as int - 1].key,
                tag: SequenceTagV::Burst(folder_view(burst@)[i as int - 1].folder),
            });
            assert(folder_view(burst@).take(i as int).drop_last() =~= folder_view(burst@).take(
                i as int - 1,
            ));
            assert(tags_map(tag_entries_view(out@)) =~= map_burst(
                folder_map(folder_view(burst@).take(i as int)),
            ));
        }
    }
    proof {
        assert(folder_view(burst@).take(burst@.len() as int) =~= folder_view(burst@));
        assert(folder_view(hdr@).take(0) =~= Seq::<FolderTagV>::empty());
        assert(tags_map(tag_entries_view(out@)) =~= map_burst(b).union_prefer_right(
            map_hdr(folder_map(folder_view(hdr@).take(0))),
        ));
    }
    let mut j: usize = 0;
    while j < hdr.len()
        invariant
            j <= hdr@.len(),
            b == folder_map(folder_view(burst@)),
            tags_map(tag_entries_view(out@)) == map_burst(b).union_prefer_right(
                map_hdr(folder_map(folder_view(hdr@).take(j as int))),
            ),
        decreases hdr@.len() - j,
    {
        let ghost pre = out@;
        out.push(
            TagEntry {
                key: clone_bytes(&hdr[j].key),
                tag: SequenceTag::Hdr(clone_bytes(&hdr[j].folder)),
            },
        );
        j = j + 1;
        proof {
            assert(out@.drop_last() =~= pre);
            assert(tag_entries_view(out@).drop_last() =~= tag_entries_view(pre));
            assert(tag_entries_view(out@).last() == TagEntryV {
                key: folder_view(hdr@)[j as int - 1].key,
                tag: SequenceTagV::Hdr(folder_view(hdr@)[j as int - 1].folder),
            });
            assert(folder_view(hdr@).take(j as int).drop_last() =~= folder_view(hdr@).take(
                j as int - 1,
            ));
            assert(tags_map(tag_entries_view(out@)) =~= map_burst(b).union_prefer_right(
                map_hdr(folder_map(folder_view(hdr@).take(j as int))),
            ));
        }
    }
    proof {
        assert(folder_view(hdr@).take(hdr@.len() as int) =~= folder_view(hdr@));
        assert(resolved_view(sorted@) == sort_spec(resolved_view(units@)));
    }
    out
}

/// The tag of a unit key, if the detector tagged it.
pub fn lookup_tag<'a>(tags: &'a Vec<TagEntry>, k: &[u8]) -> (r: Option<&'a SequenceTag>)
    ensures
        match r {
            Some(t) => tags_map(tag_entries_view(tags@)).contains_key(k@) && tags_map(
                tag_entries_view(tags@),
            )[k@] == t@,
            None => !tags_map(tag_entries_view(tags@)).contains_key(k@),
        },
{
    let ghost ev = tag_entries_view(tags@);
    let mut i: usize = tags.len();
    proof {
        assert(ev.take(ev.len() as int) =~= ev);
    }
    while i > 0
        invariant
            i <= tags@.len(),
            ev == tag_entries_view(tags@),
            tags_map(ev).contains_key(k@) == tags_map(ev.take(i as int)).contains_key(k@),
            tags_map(ev).contains_key(k@) ==> tags_map(ev)[k@] == tags_map(ev.take(i as int))[k@],
        decreases i,
    {
        i = i - 1;
        proof {
            assert(ev.take(i as int + 1).drop_last() =~= ev.take(i as int));
            assert(ev.take(i as int + 1).last() == ev[i as int]);
        }
        if crate::bytes::bytes_eq(tags[i].key.as_slice(), k) {
            proof {
                assert(ev[i as int].key == k@);
                assert(tags_map(ev.take(i as int + 1))[k@] == ev[i as int].tag);
            }
            return Some(&tags[i].tag);
        }
    }
    proof {
        assert(ev.take(0) =~= Seq::<TagEntryV>::empty());
    }
    None
}

/// HDR precedence: a unit that qualifies for an HDR run is tagged `Hdr`,
/// never `Burst`, even when its burst ordinals would also form a run.
pub proof fn lemma_hdr_precedence(units: Seq<ResolvedUnitV>, k: Seq<u8>)
    requires
        hdr_tags(sort_spec(units)).contains_key(k),
    ensures
        tags_of(units).contains_key(k),
        tags_of(units)[k] == SequenceTagV::Hdr(hdr_tags(sort_spec(units))[k]),
{
}

/// A key the detector tagged `Burst` was not in any HDR run.
pub proof fn lemma_burst_only_untagged(units: Seq<ResolvedUnitV>, k: Seq<u8>)
    requires
        tags_of(units).contains_key(k),
        tags_of(units)[k] is Burst,
    ensures
        !hdr_tags(sort_spec(units)).contains_key(k),
{
}

/// Keys stay pairwise distinct across any permutation.
proof fn lemma_perm_distinct(x: Seq<ResolvedUnitV>, y: Seq<ResolvedUnitV>)
    requires
        x.to_multiset() == y.to_multiset(),
        resolved_keys_distinct(x),
    ensures
        resolved_keys_distinct(y),
{
    assert forall|i: int, j: int|
        0 <= i < j < y.len() implies (#[trigger] y[i]).key != (#[trigger] y[j]).key by {
        if y[i].key == y[j].key {
            if y[i] == y[j] {
                let v = y[i];
                assert(y.remove(i).to_multiset() == y.to_multiset().remove(v));
                y.remove_ensures(i);
                assert(y.remove(i)[j - 1] == v);
                assert(y.remove(i).contains(v));
                assert(y.remove(i).to_multiset().count(v) > 0);
                assert(x.to_multiset().count(v) >= 2);
                assert(x.to_multiset().contains(v));
                assert(x.contains(v));
                let a = choose|a: int| 0 <= a < x.len() && x[a] == v;
                assert(x.remove(a).to_multiset() == x.to_multiset().remove(v));
                assert(x.remove(a).to_multiset().count(v) > 0);
                assert(x.remove(a).contains(v));
                let c = choose|c: int| 0 <= c < x.remove(a).len() && x.remove(a)[c] == v;
                x.remove_ensures(a);
                if c < a {
                    assert(x[c] == v && x[a] == v && c != a);
                } else {
                    assert(x[c + 1] == v && x[a] == v && c + 1 != a);
                }
            } else {
                assert(y.to_multiset().contains(y[i]));
                assert(y.to_multiset().contains(y[j]));
                assert(x.contains(y[i]));
                assert(x.contains(y[j]));
                let a = choose|a: int| 0 <= a < x.len() && x[a] == y[i];
                let b = choose|b: int| 0 <= b < x.len() && x[b] == y[j];
                assert(x[a].key == x[b].key && a != b);
            }
        }
    }
}

/// Two sorted sequences with pairwise distinct keys and the same members are
/// equal: the detection order is strict once keys are distinct, so the
/// sorted form is unique.
proof fn lemma_sorted_unique(x: Seq<ResolvedUnitV>, y: Seq<ResolvedUnitV>)
    requires
        units_sorted(x),
        units_sorted(y),
        resolved_keys_distinct(x),
        resolved_keys_distinct(y),
        x.to_multiset() == y.to_multiset(),
    ensures
        x =~= y,
    decreases x.len(),
{
    x.to_multiset_ensures();
    y.to_multiset_ensures();
    assert(x.to_multiset().len() == y.to_multiset().len());
    assert(x.len() == y.len());
    if x.len() == 0 {
        assert(x =~= y);
    }
    if x.len() > 0 {
        assert(x.contains(x[0]));
        assert(x.to_multiset().contains(x[0]));
        assert(y.contains(x[0]));
        let a = choose|a: int| 0 <= a < y.len() && y[a] == x[0];
        assert(y.contains(y[0]));
        assert(y.to_multiset().contains(y[0]));
        assert(x.contains(y[0]));
        let b = choose|b: int| 0 <= b < x.len() && x[b] == y[0];
        if a > 0 && b > 0 {
            assert(unit_le(y[0], y[a]));
            assert(unit_le(x[0], x[b]));
            assert(unit_le(y[0], x[0]) && unit_le(x[0], y[0]));
            lemma_unit_lt_asymmetric(x[0], y[0]);
            lemma_lex_lt_irreflexive(x[0].key);
            lemma_lex_lt_irreflexive(y[0].key);
            assert(x[0].key == y[0].key);
            assert(y[a].key == y[0].key);
            assert(false);
        }
        assert(x[0] == y[0]);
        let xr = x.drop_first();
        let yr = y.drop_first();
        assert(x.remove(0) =~= xr);
        assert(y.remove(0) =~= yr);
        assert(x.remove(0).to_multiset() == x.to_multiset().remove(x[0]));
        assert(y.remove(0).to_multiset() == y.to_multiset().remove(y[0]));
        assert(xr.to_multiset() == yr.to_multiset());
        assert(forall|i: int| 0 <= i < xr.len() ==> #[trigger] xr[i] == x[i + 1]);
        assert(forall|i: int| 0 <= i < yr.len() ==> #[trigger] yr[i] == y[i + 1]);
        assert forall|i: int, j: int|
            0 <= i < j < xr.len() implies unit_le(#[trigger] xr[i], #[trigger] xr[j]) by {
            assert(unit_le(x[i + 1], x[j + 1]));
        }
        assert forall|i: int, j: int|
            0 <= i < j < yr.len() implies unit_le(#[trigger] yr[i], #[trigger] yr[j]) by {
            assert(unit_le(y[i + 1], y[j + 1]));
        }
        assert forall|i: int, j: int|
            0 <= i < j < xr.len() implies (#[trigger] xr[i]).key != (#[trigger] xr[j]).key by {
            assert(x[i + 1].key != x[j + 1].key);
        }
        assert forall|i: int, j: int|
            0 <= i < j < yr.len() implies (#[trigger] yr[i]).key != (#[trigger] yr[j]).key by {
            assert(y[i + 1].key != y[j + 1].key);
        }
        lemma_sorted_unique(xr, yr);
        assert forall|i: int| 0 <= i < x.len() implies x[i] == y[i] by {
            if i > 0 {
                assert(x[i] == xr[i - 1]);
                assert(y[i] == yr[i - 1]);
            }
        }
        assert(x =~= y);
    }
}

/// Detection is a function of the set of resolved units alone: two inputs
/// with the same members (in any order), each with pairwise distinct keys,
/// are tagged identically. Re-running the detector on a reshuffled
/// resolved-unit list yields the same tags.
pub proof fn lemma_detect_deterministic(u1: Seq<ResolvedUnitV>, u2: Seq<ResolvedUnitV>)
    requires
        resolved_keys_distinct(u1),
        resolved_keys_distinct(u2),
        u1.to_multiset() == u2.to_multiset(),
    ensures
        tags_of(u1) == tags_of(u2),
{
    lemma_sort_spec_ensures(u1);
    lemma_sort_spec_ensures(u2);
    lemma_perm_distinct(u1, sort_spec(u1));
    lemma_perm_distinct(u2, sort_spec(u2));
    lemma_sorted_unique(sort_spec(u1), sort_spec(u2));
    assert(sort_spec(u1) == sort_spec(u2));
}

/// A key is in `tag_run`'s result exactly when it was already tagged or sits
/// in the run.
proof fn lemma_tag_run_dom(
    tags: Map<Seq<u8>, Seq<u8>>,
    run: Seq<Seq<u8>>,
    name: Seq<u8>,
    k: Seq<u8>,
)
    ensures
        tag_run(tags, run, name).contains_key(k) <==> (tags.contains_key(k) || run.contains(k)),
    decreases run.len(),
{
    if run.len() > 0 {
        lemma_tag_run_dom(tags, run.drop_last(), name, k);
        if run.drop_last().contains(k) {
            let m = choose|m: int| 0 <= m < run.drop_last().len() && run.drop_last()[m] == k;
            assert(run[m] == k);
        }
        if run.contains(k) && run.last() != k {
            let m = choose|m: int| 0 <= m < run.len() && run[m] == k;
            assert(run.drop_last()[m] == k);
        }
        if run.last() == k {
            assert(run[run.len() - 1] == k);
        }
    }
}

/// A key occurs before position `j` in the walked sequence.
pub open spec fn key_in_prefix(s: Seq<ResolvedUnitV>, j: int, k: Seq<u8>) -> bool {
    exists|m: int| 0 <= m < j && (#[trigger] s[m]).key == k
}

/// Unfolds one step of the HDR pass.
proof fn lemma_hdr_state_unfold(s: Seq<ResolvedUnitV>, j: int)
    requires
        0 <= j < s.len(),
    ensures
        hdr_state(s.take(j + 1)) == hdr_step(hdr_state(s.take(j)), s[j]),
{
    assert(s.take(j + 1).drop_last() =~= s.take(j));
    assert(s.take(j + 1).last() == s[j]);
}

/// Every key the HDR pass has tagged or holds in its open run was seen in
/// the walked prefix.
proof fn lemma_hdr_state_keys(s: Seq<ResolvedUnitV>, j: int)
    requires
        0 <= j <= s.len(),
    ensures
        forall|k: Seq<u8>|
            hdr_state(s.take(j)).tags.contains_key(k) ==> key_in_prefix(s, j, k),
        forall|m: int|
            0 <= m < hdr_state(s.take(j)).run.len() ==> key_in_prefix(
                s,
                j,
                #[trigger] hdr_state(s.take(j)).run[m],
            ),
    decreases j,
{
    if j == 0 {
        assert(s.take(0) =~= Seq::<ResolvedUnitV>::empty());
    } else {
        lemma_hdr_state_keys(s, j - 1);
        lemma_hdr_state_unfold(s, j - 1);
        let st = hdr_state(s.take(j - 1));
        let nx = hdr_state(s.take(j));
        assert forall|k: Seq<u8>| nx.tags.contains_key(k) implies key_in_prefix(s, j, k) by {
            lemma_tag_run_dom(st.tags, st.run, st.name, k);
            if st.tags.contains_key(k) {
                assert(key_in_prefix(s, j - 1, k));
                let m = choose|m: int| 0 <= m < j - 1 && (#[trigger] s[m]).key == k;
                assert(s[m].key == k);
            } else if st.run.contains(k) {
                let m = choose|m: int| 0 <= m < st.run.len() && st.run[m] == k;
                assert(key_in_prefix(s, j - 1, k));
                let p = choose|p: int| 0 <= p < j - 1 && (#[trigger] s[p]).key == k;
                assert(s[p].key == k);
            }
        }
        assert forall|m: int| 0 <= m < nx.run.len() implies key_in_prefix(
            s,
            j,
            #[trigger] nx.run[m],
        ) by {
            if nx.run[m] == s[j - 1].key {
                assert(s[j - 1].key == nx.run[m]);
            } else {
                assert(st.run.contains(nx.run[m]) || nx.run[m] == s[j - 1].key || exists|p: int|
                    0 <= p < st.run.len() && st.run[p] == nx.run[m]);
                if m < st.run.len() && nx.run == st.run.push(s[j - 1].key) {
                    assert(nx.run[m] == st.run[m]);
                    assert(key_in_prefix(s, j - 1, st.run[m]));
                    let p = choose|p: int| 0 <= p < j - 1 && (#[trigger] s[p]).key == nx.run[m];
                    assert(s[p].key == nx.run[m]);
                }
            }
        }
    }
}

/// Once a key is out of the HDR pass's run and tags, and no later unit
/// carries it, it stays out.
proof fn lemma_hdr_key_stays_out(s: Seq<ResolvedUnitV>, k: Seq<u8>, j0: int, j1: int)
    requires
        0 <= j0 <= j1 <= s.len(),
        !hdr_state(s.take(j0)).tags.contains_key(k),
        !hdr_state(s.take(j0)).run.contains(k),
        forall|m: int| j0 <= m < j1 ==> (#[trigger] s[m]).key != k,
    ensures
        !hdr_state(s.take(j1)).tags.contains_key(k),
        !hdr_state(s.take(j1)).run.contains(k),
    decreases j1 - j0,
{
    if j0 < j1 {
        let st = hdr_state(s.take(j0));
        let nx = hdr_state(s.take(j0 + 1));
        lemma_hdr_state_unfold(s, j0);
        lemma_tag_run_dom(st.tags, st.run, st.name, k);
        assert(!nx.tags.contains_key(k));
        assert forall|m: int| 0 <= m < nx.run.len() implies nx.run[m] != k by {
            if nx.run == st.run.push(s[j0].key) && m < st.run.len() {
                assert(st.run[m] != k);
            }
        }
        if nx.run.contains(k) {
            let m = choose|m: int| 0 <= m < nx.run.len() && nx.run[m] == k;
        }
        lemma_hdr_key_stays_out(s, k, j0 + 1, j1);
    }
}

/// No singleton tagging: a unit showing HDR shot ordinal 1 whose successor
/// in detection order does not show ordinal 2 (or that has no successor) is
/// never tagged by the HDR pass. Here `s` is the sorted sequence the
/// detector walks.
pub proof fn lemma_no_singleton_hdr(s: Seq<ResolvedUnitV>, i: int)
    requires
        resolved_keys_distinct(s),
        0 <= i < s.len(),
        s[i].hdr == Some(1u32),
        i + 1 < s.len() ==> s[i + 1].hdr != Some(2u32),
    ensures
        !hdr_tags(s).contains_key(s[i].key),
{
    let k = s[i].key;
    lemma_hdr_state_keys(s, i);
    let st_i = hdr_state(s.take(i));
    assert(!st_i.tags.contains_key(k)) by {
        if st_i.tags.contains_key(k) {
            assert(key_in_prefix(s, i, k));
            let m = choose|m: int| 0 <= m < i && (#[trigger] s[m]).key == k;
            assert(s[m].key != s[i].key);
        }
    }
    lemma_hdr_state_unfold(s, i);
    let st_i1 = hdr_state(s.take(i + 1));
    lemma_tag_run_dom(st_i.tags, st_i.run, st_i.name, k);
    assert(st_i1.run =~= seq![k]);
    assert(st_i1.expected == 2);
    assert(!st_i1.tags.contains_key(k)) by {
        if st_i.run.contains(k) {
            let m = choose|m: int| 0 <= m < st_i.run.len() && st_i.run[m] == k;
            assert(key_in_prefix(s, i, st_i.run[m]));
            let p = choose|p: int| 0 <= p < i && (#[trigger] s[p]).key == k;
            assert(s[p].key != s[i].key);
        }
    }
    if i + 1 == s.len() {
        assert(s.take(i + 1) =~= s);
        assert(hdr_tags(s) == st_i1.tags);
    } else {
        lemma_hdr_state_unfold(s, i + 1);
        let st_i2 = hdr_state(s.take(i + 2));
        assert(st_i1.run.len() == 1);
        assert(flush_tags(st_i1) == st_i1.tags);
        assert(!st_i2.tags.contains_key(k));
        assert(!st_i2.run.contains(k)) by {
            match s[i + 1].hdr {
                Some(n) => {
                    if n == 1 {
                        assert(st_i2.run =~= seq![s[i + 1].key]);
                        assert(s[i + 1].key != k);
                        if st_i2.run.contains(k) {
                            let m = choose|m: int| 0 <= m < st_i2.run.len() && st_i2.run[m] == k;
                        }
                    } else {
                        assert(n != 2);
                        assert(st_i1.expected == 2);
                        assert(st_i2.run =~= Seq::<Seq<u8>>::empty());
                    }
                },
                None => {
                    assert(st_i2.run =~= Seq::<Seq<u8>>::empty());
                },
            }
        }
        assert forall|m: int| i + 2 <= m < s.len() implies (#[trigger] s[m]).key != k by {
            assert(s[i].key == k);
        }
        lemma_hdr_key_stays_out(s, k, i + 2, s.len() as int);
        let st_n = hdr_state(s.take(s.len() as int));
        assert(s.take(s.len() as int) =~= s);
        lemma_tag_run_dom(st_n.tags, st_n.run, st_n.name, k);
    }
}


/// No singleton tagging, seen from the final tag map: under pairwise
/// distinct keys, a unit showing HDR shot ordinal 1 whose successor in
/// detection order does not show ordinal 2 (or that has no successor) is
/// never tagged `Hdr` — any tag it carries came from the burst pass.
pub proof fn lemma_no_singleton_hdr_tag(units: Seq<ResolvedUnitV>, i: int)
    requires
        resolved_keys_distinct(units),
        0 <= i < sort_spec(units).len(),
        sort_spec(units)[i].hdr == Some(1u32),
        i + 1 < sort_spec(units).len() ==> sort_spec(units)[i + 1].hdr != Some(2u32),
    ensures
        tags_of(units).contains_key(sort_spec(units)[i].key) ==> tags_of(units)[sort_spec(
            units,
        )[i].key] is Burst,
{
    lemma_sort_spec_ensures(units);
    lemma_perm_distinct(units, sort_spec(units));
    lemma_no_singleton_hdr(sort_spec(units), i);
}

} // verus!
