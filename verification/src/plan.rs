//! The destination planner: computes, for every file of every unit, the
//! date-partitioned, format-separated destination path, and collects
//! validation failures. Validation is all-or-nothing: the caller gets either
//! the complete sorted copy plan or the complete, non-empty error set —
//! never a mix, never a plan that would overwrite an existing file, and
//! never a plan two of whose entries share a destination.
//!
//! Filesystem facts arrive as data: a [`FileStat`] per source file, gathered
//! by the caller before planning, and one existence flag per computed
//! destination, gathered between [`stage_plan`] and [`finish_plan`].

use vstd::prelude::*;
use vstd::string::StringSliceAdditionalSpecFns;
use crate::bytes::{clone_bytes, dec_padded, lex_lt, push_bytes, push_decimal};
use crate::classify::{is_raw_name, is_raw_file, tree_of, Tree};
use crate::detect::{lookup_tag, tags_map, tag_entries_view, SequenceTag, SequenceTagV, TagEntry};
use crate::group::{entries_view, FileEntryV, Unit, UnitV, units_view};
use crate::meta::exif_date_of;
use crate::resolve::{cache_get, cache_lookup, cache_view, has_photo, rep_index, MetaEntry,
    MetaEntryV, representative_index};
use crate::time::{ts_le, ts_not_after, Timestamp};

verus! {

broadcast use {vstd::seq_lib::group_to_multiset_ensures, vstd::multiset::group_multiset_axioms};

/// Why a file failed validation.
#[derive(Debug, PartialEq, Eq)]
pub enum Reason {
    /// The representative file's metadata could not be read, and no capture
    /// time was cached.
    CannotReadMetadata,
    /// The representative file's modification time could not be read, and no
    /// capture time was cached.
    CannotGetMtime,
    /// The source file does not exist or cannot be accessed.
    SourceMissing,
    /// The source is not a regular file.
    SourceNotRegular,
    /// The destination path (carried here) already exists on disk.
    DestinationExists(Vec<u8>),
    /// Another staged source file maps to the same destination path
    /// (carried here); copying both would silently overwrite one.
    DuplicateDestination(Vec<u8>),
}

/// Mathematical image of a [`Reason`].
pub enum ReasonV {
    CannotReadMetadata,
    CannotGetMtime,
    SourceMissing,
    SourceNotRegular,
    DestinationExists(Seq<u8>),
    DuplicateDestination(Seq<u8>),
}

impl View for Reason {
    type V = ReasonV;

    open spec fn view(&self) -> ReasonV {
        match self {
            Reason::CannotReadMetadata => ReasonV::CannotReadMetadata,
            Reason::CannotGetMtime => ReasonV::CannotGetMtime,
            Reason::SourceMissing => ReasonV::SourceMissing,
            Reason::SourceNotRegular => ReasonV::SourceNotRegular,
            Reason::DestinationExists(d) => ReasonV::DestinationExists(d@),
            Reason::DuplicateDestination(d) => ReasonV::DuplicateDestination(d@),
        }
    }
}

/// One validation failure: the source file it concerns and the reason.
#[derive(Debug, PartialEq, Eq)]
pub struct ValidationError {
    pub file: Vec<u8>,
    pub reason: Reason,
}

/// Mathematical image of a [`ValidationError`].
pub struct ValidationErrorV {
    pub file: Seq<u8>,
    pub reason: ReasonV,
}

impl View for ValidationError {
    type V = ValidationErrorV;

    open spec fn view(&self) -> ValidationErrorV {
        ValidationErrorV { file: self.file@, reason: self.reason@ }
    }
}

/// Mathematical image of an error list.
pub open spec fn errors_view(v: Seq<ValidationError>) -> Seq<ValidationErrorV> {
    v.map_values(|e: ValidationError| e@)
}

/// One planned copy: source and fully qualified destination.
#[derive(Debug, PartialEq, Eq)]
pub struct PlanEntry {
    pub source: Vec<u8>,
    pub dest: Vec<u8>,
}

/// Mathematical image of a [`PlanEntry`].
pub struct PlanEntryV {
    pub source: Seq<u8>,
    pub dest: Seq<u8>,
}

impl View for PlanEntry {
    type V = PlanEntryV;

    open spec fn view(&self) -> PlanEntryV {
        PlanEntryV { source: self.source@, dest: self.dest@ }
    }
}

/// Mathematical image of a plan.
pub open spec fn plan_view(v: Seq<PlanEntry>) -> Seq<PlanEntryV> {
    v.map_values(|e: PlanEntry| e@)
}

/// What the filesystem reported about one source file: whether its metadata
/// was readable, whether it is a regular file, and its modification time.
/// `regular` and `mtime` carry meaning only when `readable` holds.
#[derive(Clone, Copy, Debug)]
pub struct FileStat {
    pub readable: bool,
    pub regular: bool,
    pub mtime: Option<Timestamp>,
}

/// Mathematical image of the per-unit stat rows.
pub open spec fn stats_view(v: Seq<Vec<FileStat>>) -> Seq<Seq<FileStat>> {
    v.map_values(|row: Vec<FileStat>| row@)
}

/// The path separator.
pub open spec fn sep() -> Seq<u8> {
    "/".spec_bytes()
}

/// Root of a destination tree: `<root>/RAW` or `<root>/JPEG`.
pub open spec fn tree_root(root: Seq<u8>, tree: Tree) -> Seq<u8> {
    match tree {
        Tree::Raw => root + sep() + "RAW".spec_bytes(),
        Tree::Jpeg => root + sep() + "JPEG".spec_bytes(),
    }
}

/// The destination of one file: a pure function of the destination root, the
/// file's tree, the unit's resolved date, the unit's sequence folder, and
/// the file's own name —
/// `<root>/{RAW|JPEG}/<YYYY>/<MM>/<DD>[/<folder>]/<name>`.
pub open spec fn dest_path(
    root: Seq<u8>,
    tree: Tree,
    date: Timestamp,
    folder: Option<Seq<u8>>,
    name: Seq<u8>,
) -> Seq<u8> {
    tree_root(root, tree) + sep() + dec_padded(date.year as nat, 4) + sep() + dec_padded(
        date.month as nat,
        2,
    ) + sep() + dec_padded(date.day as nat, 2) + (match folder {
        Some(f) => sep() + f,
        None => Seq::empty(),
    }) + sep() + name
}

/// Builds the destination path of one file.
pub fn destination_path(
    root: &[u8],
    tree: Tree,
    date: &Timestamp,
    folder: Option<&Vec<u8>>,
    name: &[u8],
) -> (r: Vec<u8>)
    ensures
        r@ == dest_path(root@, tree, *date, match folder {
            Some(f) => Some(f@),
            None => None,
        }, name@),
{
    let mut out: Vec<u8> = Vec::new();
    push_bytes(&mut out, root);
    push_bytes(&mut out, "/".as_bytes());
    match tree {
        Tree::Raw => push_bytes(&mut out, "RAW".as_bytes()),
        Tree::Jpeg => push_bytes(&mut out, "JPEG".as_bytes()),
    }
    push_bytes(&mut out, "/".as_bytes());
    push_decimal(&mut out, date.year, 4);
    push_bytes(&mut out, "/".as_bytes());
    push_decimal(&mut out, date.month, 2);
    push_bytes(&mut out, "/".as_bytes());
    push_decimal(&mut out, date.day, 2);
    match folder {
        Some(f) => {
            push_bytes(&mut out, "/".as_bytes());
            push_bytes(&mut out, f.as_slice());
        },
        None => {},
    }
    push_bytes(&mut out, "/".as_bytes());
    push_bytes(&mut out, name);
    proof {
        assert(out@ =~= dest_path(root@, tree, *date, match folder {
            Some(f) => Some(f@),
            None => None,
        }, name@));
    }
    out
}

/// Destination determinism: the destination is a pure function of the root,
/// the file's classification, the resolved date, the sequence folder and the
/// file name — two files agreeing on those five values get the same
/// destination, whatever units they sit in.
pub proof fn lemma_destination_deterministic(
    root: Seq<u8>,
    tree1: Tree,
    tree2: Tree,
    d1: Timestamp,
    d2: Timestamp,
    f1: Option<Seq<u8>>,
    f2: Option<Seq<u8>>,
    n1: Seq<u8>,
    n2: Seq<u8>,
)
    requires
        tree1 == tree2,
        d1.year == d2.year && d1.month == d2.month && d1.day == d2.day,
        f1 == f2,
        n1 == n2,
    ensures
        dest_path(root, tree1, d1, f1, n1) == dest_path(root, tree2, d2, f2, n2),
{
}

/// The file index whose stat decides a unit's fallback date: its
/// representative photo, else its first file.
pub open spec fn date_file_index(u: UnitV) -> int {
    if has_photo(u.files) {
        rep_index(u.files)
    } else {
        0
    }
}

/// The date a unit resolves to while planning: the cached capture time, else
/// the date file's modification time; an error naming the date file when
/// neither can be had.
pub open spec fn unit_date(u: UnitV, cache: Seq<MetaEntryV>, row: Seq<FileStat>) -> Result<
    Timestamp,
    ValidationErrorV,
> {
    let r = date_file_index(u);
    let cached = if has_photo(u.files) {
        match cache_lookup(cache, u.key) {
            Some(e) => exif_date_of(e),
            None => None,
        }
    } else {
        None
    };
    match cached {
        Some(t) => Ok(t),
        None => if !row[r].readable {
            Err(ValidationErrorV { file: u.files[r].path, reason: ReasonV::CannotReadMetadata })
        } else {
            match row[r].mtime {
                Some(t) => Ok(t),
                None => Err(
                    ValidationErrorV { file: u.files[r].path, reason: ReasonV::CannotGetMtime },
                ),
            }
        },
    }
}

/// The folder name a tag carries.
pub open spec fn tag_folder(t: SequenceTagV) -> Seq<u8> {
    match t {
        SequenceTagV::Burst(f) => f,
        SequenceTagV::Hdr(f) => f,
    }
}

/// A unit's default tree: the raw tree when its date file is raw, else the
/// JPEG tree.
pub open spec fn default_tree(u: UnitV) -> Tree {
    if is_raw_name(u.files[date_file_index(u)].name) {
        Tree::Raw
    } else {
        Tree::Jpeg
    }
}

/// Per-file staging of one unit: a plan entry for each regular readable
/// source, an error for each other one — granularity is per file here.
pub open spec fn files_plan(
    files: Seq<FileEntryV>,
    row: Seq<FileStat>,
    root: Seq<u8>,
    default: Tree,
    date: Timestamp,
    folder: Option<Seq<u8>>,
) -> (Seq<PlanEntryV>, Seq<ValidationErrorV>)
    decreases files.len(),
{
    if files.len() == 0 {
        (Seq::empty(), Seq::empty())
    } else {
        let (ps, es) = files_plan(files.drop_last(), row.drop_last(), root, default, date, folder);
        let f = files.last();
        let st = row[files.len() - 1];
        if !st.readable {
            (ps, es.push(ValidationErrorV { file: f.path, reason: ReasonV::SourceMissing }))
        } else if !st.regular {
            (ps, es.push(ValidationErrorV { file: f.path, reason: ReasonV::SourceNotRegular }))
        } else {
            (
                ps.push(
                    PlanEntryV {
                        source: f.path,
                        dest: dest_path(root, tree_of(f.name, default), date, folder, f.name),
                    },
                ),
                es,
            )
        }
    }
}

/// The sequence folder of a unit, when the detector tagged its key.
pub open spec fn unit_folder(u: UnitV, tags: Map<Seq<u8>, SequenceTagV>) -> Option<Seq<u8>> {
    if tags.contains_key(u.key) {
        Some(tag_folder(tags[u.key]))
    } else {
        None
    }
}

/// Staging of one unit: resolve its date (or fail the whole unit), honour
/// the incremental cutoff (a unit dated at or before it is skipped without
/// error), then stage its files.
pub open spec fn unit_plan(
    u: UnitV,
    row: Seq<FileStat>,
    cache: Seq<MetaEntryV>,
    tags: Map<Seq<u8>, SequenceTagV>,
    root: Seq<u8>,
    cutoff: Option<Timestamp>,
) -> (Seq<PlanEntryV>, Seq<ValidationErrorV>) {
    match unit_date(u, cache, row) {
        Err(e) => (Seq::empty(), seq![e]),
        Ok(date) => if (match cutoff {
            Some(c) => ts_le(date, c),
            None => false,
        }) {
            (Seq::empty(), Seq::empty())
        } else {
            files_plan(u.files, row, root, default_tree(u), date, unit_folder(u, tags))
        },
    }
}

/// Staging of the whole batch, unit by unit in input order.
pub open spec fn stage_spec(
    units: Seq<UnitV>,
    stats: Seq<Seq<FileStat>>,
    cache: Seq<MetaEntryV>,
    tags: Map<Seq<u8>, SequenceTagV>,
    root: Seq<u8>,
    cutoff: Option<Timestamp>,
) -> (Seq<PlanEntryV>, Seq<ValidationErrorV>)
    decreases units.len(),
{
    if units.len() == 0 {
        (Seq::empty(), Seq::empty())
    } else {
        let (ps, es) = stage_spec(units.drop_last(), stats.drop_last(), cache, tags, root, cutoff);
        let (p1, e1) = unit_plan(units.last(), stats[units.len() - 1], cache, tags, root, cutoff);
        (ps + p1, es + e1)
    }
}

/// Index of the file whose stat decides the unit's fallback date.
fn date_file_idx(u: &Unit) -> (r: usize)
    requires
        u.files@.len() >= 1,
    ensures
        r == date_file_index(u@),
        r < u.files@.len(),
{
    match representative_index(&u.files) {
        Some(i) => i,
        None => 0,
    }
}

/// Resolves a unit's planning date: the cached capture time, else the date
/// file's modification time, else the error the unit fails with.
fn resolve_unit_date(u: &Unit, cache: &Vec<MetaEntry>, row: &Vec<FileStat>) -> (r: Result<
    Timestamp,
    ValidationError,
>)
    requires
        row@.len() == u.files@.len(),
        u.files@.len() >= 1,
    ensures
        match r {
            Ok(t) => unit_date(u@, cache_view(cache@), row@) == Ok::<Timestamp, ValidationErrorV>(
                t,
            ),
            Err(e) => unit_date(u@, cache_view(cache@), row@) == Err::<
                Timestamp,
                ValidationErrorV,
            >(e@),
        },
{
    let ridx = date_file_idx(u);
    let cached: Option<Timestamp> = match representative_index(&u.files) {
        Some(_) => {
            match cache_get(cache, u.key.as_slice()) {
                Some(e) => crate::meta::get_exif_date(e),
                None => None,
            }
        },
        None => None,
    };
    match cached {
        Some(t) => Ok(t),
        None => {
            let st = row[ridx];
            if !st.readable {
                Err(
                    ValidationError {
                        file: clone_bytes(&u.files[ridx].path),
                        reason: Reason::CannotReadMetadata,
                    },
                )
            } else {
                match st.mtime {
                    Some(t) => Ok(t),
                    None => Err(
                        ValidationError {
                            file: clone_bytes(&u.files[ridx].path),
                            reason: Reason::CannotGetMtime,
                        },
                    ),
                }
            }
        },
    }
}

/// Stages the whole batch: computes a candidate plan entry for every regular
/// readable file of every dated unit, and the validation errors found on the
/// way. The caller checks the candidate destinations for existence and hands
/// both to [`finish_plan`].
#[verifier::rlimit(80)]
pub fn stage_plan(
    units: &Vec<Unit>,
    stats: &Vec<Vec<FileStat>>,
    cache: &Vec<MetaEntry>,
    tags: &Vec<TagEntry>,
    root: &[u8],
    cutoff: Option<Timestamp>,
) -> (r: (Vec<PlanEntry>, Vec<ValidationError>))
    requires
        stats@.len() == units@.len(),
        forall|i: int|
            0 <= i < units@.len() ==> (#[trigger] stats_view(stats@)[i]).len() == units_view(
                units@,
            )[i].files.len(),
        forall|i: int| 0 <= i < units@.len() ==> (#[trigger] units_view(units@)[i]).files.len() >= 1,
    ensures
        plan_view(r.0@) == stage_spec(
            units_view(units@),
            stats_view(stats@),
            cache_view(cache@),
            tags_map(tag_entries_view(tags@)),
            root@,
            cutoff,
        ).0,
        errors_view(r.1@) == stage_spec(
            units_view(units@),
            stats_view(stats@),
            cache_view(cache@),
            tags_map(tag_entries_view(tags@)),
            root@,
            cutoff,
        ).1,
{
    let ghost uv = units_view(units@);
    let ghost sv = stats_view(stats@);
    let ghost cv = cache_view(cache@);
    let ghost tm = tags_map(tag_entries_view(tags@));
    let mut plan: Vec<PlanEntry> = Vec::new();
    let mut errors: Vec<ValidationError> = Vec::new();
    let mut i: usize = 0;
    proof {
        assert(uv.take(0) =~= Seq::<UnitV>::empty());
        assert(plan_view(plan@) =~= stage_spec(uv.take(0), sv.take(0), cv, tm, root@, cutoff).0);
        assert(errors_view(errors@) =~= stage_spec(uv.take(0), sv.take(0), cv, tm, root@, cutoff).1);
    }
    while i < units.len()
        invariant
            i <= units@.len(),
            uv == units_view(units@),
            sv == stats_view(stats@),
            cv == cache_view(cache@),
            tm == tags_map(tag_entries_view(tags@)),
            stats@.len() == units@.len(),
            forall|m: int| 0 <= m < units@.len() ==> (#[trigger] sv[m]).len() == uv[m].files.len(),
            forall|m: int| 0 <= m < units@.len() ==> (#[trigger] uv[m]).files.len() >= 1,
            plan_view(plan@) == stage_spec(uv.take(i as int), sv.take(i as int), cv, tm, root@, cutoff).0,
            errors_view(errors@) == stage_spec(uv.take(i as int), sv.take(i as int), cv, tm, root@, cutoff).1,
        decreases units@.len() - i,
    {
        let u = &units[i];
        let row = &stats[i];
        let ghost plan_pre = plan_view(plan@);
        let ghost err_pre = errors_view(errors@);
        proof {
            assert(row@ == sv[i as int]);
            assert(u.files@.len() == uv[i as int].files.len());
        }
        match resolve_unit_date(u, cache, row) {
            Err(e) => {
                proof {
                    assert(unit_plan(uv[i as int], sv[i as int], cv, tm, root@, cutoff).1 =~= seq![e@]);
                }
                errors.push(e);
                proof {
                    assert(errors_view(errors@) =~= err_pre + unit_plan(
                        uv[i as int], sv[i as int], cv, tm, root@, cutoff).1);
                    assert(plan_view(plan@) =~= plan_pre + unit_plan(
                        uv[i as int], sv[i as int], cv, tm, root@, cutoff).0);
                }
            },
            Ok(date) => {
                let skipped: bool = match cutoff {
                    Some(c) => ts_not_after(&date, &c),
                    None => false,
                };
                if skipped {
                    proof {
                        assert(plan_view(plan@) =~= plan_pre + unit_plan(
                            uv[i as int], sv[i as int], cv, tm, root@, cutoff).0);
                        assert(errors_view(errors@) =~= err_pre + unit_plan(
                            uv[i as int], sv[i as int], cv, tm, root@, cutoff).1);
                    }
                } else {
                    let folder: Option<Vec<u8>> = match lookup_tag(tags, u.key.as_slice()) {
                        Some(t) => match t {
                            SequenceTag::Burst(f) => Some(clone_bytes(f)),
                            SequenceTag::Hdr(f) => Some(clone_bytes(f)),
                        },
                        None => None,
                    };
                    let ghost gfolder: Option<Seq<u8>> = if tm.contains_key(uv[i as int].key) {
                        Some(tag_folder(tm[uv[i as int].key]))
                    } else {
                        None::<Seq<u8>>
                    };
                    proof {
                        assert((match folder {
                            Some(ref f) => Some(f@),
                            None => None::<Seq<u8>>,
                        }) == gfolder);
                    }
                    let ridx = date_file_idx(u);
                    let default: Tree = if is_raw_file(u.files[ridx].name.as_slice()) {
                        Tree::Raw
                    } else {
                        Tree::Jpeg
                    };
                    proof {
                        assert(default == default_tree(uv[i as int]));
                    }
                    let mut j: usize = 0;
                    let ghost files = uv[i as int].files;
                    let ghost rowv = sv[i as int];
                    proof {
                        assert(files.take(0) =~= Seq::<FileEntryV>::empty());
                        assert(files_plan(files.take(0), rowv.take(0), root@, default, date, gfolder).0
                            =~= Seq::<PlanEntryV>::empty());
                    }
                    while j < u.files.len()
                        invariant
                            j <= u.files@.len(),
                            files == entries_view(u.files@),
                            rowv == row@,
                            row@.len() == u.files@.len(),
                            files.len() == u.files@.len(),
                            default == default_tree(uv[i as int]),
                            gfolder == (match folder {
                                Some(ref f) => Some(f@),
                                None => None::<Seq<u8>>,
                            }),
                            plan_view(plan@) == plan_pre + files_plan(
                                files.take(j as int), rowv.take(j as int), root@, default, date, gfolder).0,
                            errors_view(errors@) == err_pre + files_plan(
                                files.take(j as int), rowv.take(j as int), root@, default, date, gfolder).1,
                        decreases u.files@.len() - j,
                    {
                        let st = row[j];
                        let ghost pp = plan_view(plan@);
                        let ghost ep = errors_view(errors@);
                        if !st.readable {
                            errors.push(
                                ValidationError {
                                    file: clone_bytes(&u.files[j].path),
                                    reason: Reason::SourceMissing,
                                },
                            );
                        } else if !st.regular {
                            errors.push(
                                ValidationError {
                                    file: clone_bytes(&u.files[j].path),
                                    reason: Reason::SourceNotRegular,
                                },
                            );
                        } else {
                            let name = &u.files[j].name;
                            let tree = crate::classify::target_tree(name.as_slice(), default);
                            let dest = destination_path(root, tree, &date, match folder {
                                Some(ref f) => Some(f),
                                None => None,
                            }, name.as_slice());
                            plan.push(PlanEntry { source: clone_bytes(&u.files[j].path), dest });
                        }
                        j = j + 1;
                        proof {
                            assert(files.take(j as int).drop_last() =~= files.take(j as int - 1));
                            assert(rowv.take(j as int).drop_last() =~= rowv.take(j as int - 1));
                            assert(files.take(j as int).last() == files[j as int - 1]);
                            assert(rowv.take(j as int)[files.take(j as int).len() - 1] == rowv[j as int
                                - 1]);
                            if plan@.len() > pp.len() {
                                assert(plan_view(plan@).drop_last() =~= pp);
                                assert(plan_view(plan@) =~= pp.push(plan_view(plan@).last()));
                            }
                            if errors@.len() > ep.len() {
                                assert(errors_view(errors@).drop_last() =~= ep);
                                assert(errors_view(errors@) =~= ep.push(errors_view(errors@).last()));
                            }
                        }
                    }
                    proof {
                        assert(files.take(files.len() as int) =~= files);
                        assert(rowv.take(rowv.len() as int) =~= rowv);
                        assert(plan_view(plan@) =~= plan_pre + unit_plan(
                            uv[i as int], sv[i as int], cv, tm, root@, cutoff).0);
                        assert(errors_view(errors@) =~= err_pre + unit_plan(
                            uv[i as int], sv[i as int], cv, tm, root@, cutoff).1);
                    }
                }
            },
        }
        i = i + 1;
        proof {
            assert(uv.take(i as int).drop_last() =~= uv.take(i as int - 1));
            assert(sv.take(i as int).drop_last() =~= sv.take(i as int - 1));
            assert(uv.take(i as int).last() == uv[i as int - 1]);
            assert(sv.take(i as int)[uv.take(i as int).len() - 1] == sv[i as int - 1]);
        }
    }
    proof {
        assert(uv.take(uv.len() as int) =~= uv);
        assert(sv.take(sv.len() as int) =~= sv);
    }
    (plan, errors)
}

/// Plan order: by source path.
pub open spec fn entry_le(a: PlanEntryV, b: PlanEntryV) -> bool {
    lex_lt(a.source, b.source) || a.source == b.source
}

/// The plan is sorted by source path.
pub open spec fn plan_sorted(s: Seq<PlanEntryV>) -> bool {
    forall|i: int, j: int| 0 <= i < j < s.len() ==> entry_le(#[trigger] s[i], #[trigger] s[j])
}

/// Inserts a plan entry at its place in a sorted plan, counting from the
/// back.
pub open spec fn insert_entry_sorted(s: Seq<PlanEntryV>, e: PlanEntryV) -> Seq<PlanEntryV>
    decreases s.len(),
{
    if s.len() == 0 {
        seq![e]
    } else if entry_le(s.last(), e) {
        s.push(e)
    } else {
        insert_entry_sorted(s.drop_last(), e).push(s.last())
    }
}

/// Insertion sort of the plan by source path.
pub open spec fn sort_entries_spec(s: Seq<PlanEntryV>) -> Seq<PlanEntryV>
    decreases s.len(),
{
    if s.len() == 0 {
        s
    } else {
        insert_entry_sorted(sort_entries_spec(s.drop_last()), s.last())
    }
}

proof fn lemma_insert_entry_at(s: Seq<PlanEntryV>, e: PlanEntryV, p: int)
    requires
        0 <= p <= s.len(),
        p > 0 ==> entry_le(s[p - 1], e),
        forall|q: int| p <= q < s.len() ==> !entry_le(#[trigger] s[q], e),
    ensures
        insert_entry_sorted(s, e) =~= s.take(p) + seq![e] + s.skip(p),
    decreases s.len(),
{
    if s.len() == 0 {
    } else if entry_le(s.last(), e) {
        assert(p == s.len());
        assert(s.take(p) =~= s);
        assert(s.skip(p) =~= Seq::<PlanEntryV>::empty());
    } else {
        assert(p < s.len());
        lemma_insert_entry_at(s.drop_last(), e, p);
        assert(s.drop_last().take(p) =~= s.take(p));
        assert(s.drop_last().skip(p).push(s.last()) =~= s.skip(p));
    }
}

proof fn lemma_entry_le_total(a: PlanEntryV, b: PlanEntryV)
    ensures
        entry_le(a, b) || entry_le(b, a),
{
    crate::bytes::lemma_lex_lt_total(a.source, b.source);
}

proof fn lemma_entry_le_transitive(a: PlanEntryV, b: PlanEntryV, c: PlanEntryV)
    requires
        entry_le(a, b),
        entry_le(b, c),
    ensures
        entry_le(a, c),
{
    if lex_lt(a.source, b.source) && lex_lt(b.source, c.source) {
        crate::bytes::lemma_lex_lt_transitive(a.source, b.source, c.source);
    }
}

proof fn lemma_insert_entry_ensures(s: Seq<PlanEntryV>, e: PlanEntryV)
    requires
        plan_sorted(s),
    ensures
        plan_sorted(insert_entry_sorted(s, e)),
        insert_entry_sorted(s, e).to_multiset() =~= s.to_multiset().insert(e),
        insert_entry_sorted(s, e).len() == s.len() + 1,
    decreases s.len(),
{
    if s.len() == 0 {
        assert(seq![e] =~= Seq::<PlanEntryV>::empty().push(e));
    } else if entry_le(s.last(), e) {
        let out = s.push(e);
        assert forall|i: int, j: int|
            0 <= i < j < out.len() implies entry_le(#[trigger] out[i], #[trigger] out[j]) by {
            if j == out.len() - 1 {
                if i < s.len() - 1 {
                    assert(entry_le(s[i], s[s.len() - 1]));
                    lemma_entry_le_transitive(s[i], s[s.len() - 1], e);
                }
            }
        }
    } else {
        let rest = insert_entry_sorted(s.drop_last(), e);
        assert(forall|i: int, j: int|
            0 <= i < j < s.drop_last().len() ==> entry_le(
                #[trigger] s.drop_last()[i],
                #[trigger] s.drop_last()[j],
            ));
        lemma_insert_entry_ensures(s.drop_last(), e);
        let out = rest.push(s.last());
        lemma_entry_le_total(s.last(), e);
        assert(entry_le(e, s.last()));
        assert forall|i: int, j: int|
            0 <= i < j < out.len() implies entry_le(#[trigger] out[i], #[trigger] out[j]) by {
            if j == out.len() - 1 {
                assert(rest.to_multiset().contains(rest[i]));
                if s.drop_last().to_multiset().contains(rest[i]) {
                    let m = choose|m: int|
                        0 <= m < s.drop_last().len() && #[trigger] s.drop_last()[m] == rest[i];
                    assert(entry_le(s[m], s[s.len() - 1]));
                    assert(entry_le(rest[i], s.last()));
                } else {
                    assert(rest[i] == e);
                }
            }
        }
        assert(s.drop_last().push(s.last()) =~= s);
        assert(s.drop_last().push(s.last()).to_multiset() =~= s.drop_last()
            .to_multiset().insert(s.last()));
    }
}

/// The sorted plan is sorted by source and holds exactly the staged entries.
pub proof fn lemma_sort_entries_ensures(s: Seq<PlanEntryV>)
    ensures
        plan_sorted(sort_entries_spec(s)),
        sort_entries_spec(s).to_multiset() =~= s.to_multiset(),
        sort_entries_spec(s).len() == s.len(),
    decreases s.len(),
{
    if s.len() > 0 {
        lemma_sort_entries_ensures(s.drop_last());
        lemma_insert_entry_ensures(sort_entries_spec(s.drop_last()), s.last());
        assert(s.drop_last().push(s.last()) =~= s);
        assert(s.drop_last().push(s.last()).to_multiset() =~= s.drop_last()
            .to_multiset().insert(s.last()));
    }
}

/// Plan-order comparison.
fn entry_not_after(a: &PlanEntry, b: &PlanEntry) -> (r: bool)
    ensures
        r == entry_le(a@, b@),
{
    if crate::bytes::bytes_lt(a.source.as_slice(), b.source.as_slice()) {
        true
    } else {
        crate::bytes::bytes_eq(a.source.as_slice(), b.source.as_slice())
    }
}

/// Sorts the plan by source path, for deterministic output.
fn sort_entries(entries: Vec<PlanEntry>) -> (r: Vec<PlanEntry>)
    ensures
        plan_view(r@) == sort_entries_spec(plan_view(entries@)),
{
    let ghost ev = plan_view(entries@);
    let mut out: Vec<PlanEntry> = Vec::new();
    let mut rest = entries;
    let mut i: usize = 0;
    proof {
        assert(plan_view(out@) =~= sort_entries_spec(ev.take(0)));
    }
    while i < rest.len()
        invariant
            i <= rest@.len(),
            ev == plan_view(rest@),
            plan_view(out@) == sort_entries_spec(ev.take(i as int)),
        decreases rest@.len() - i,
    {
        let e = PlanEntry {
            source: clone_bytes(&rest[i].source),
            dest: clone_bytes(&rest[i].dest),
        };
        let ghost pre = plan_view(out@);
        let mut p: usize = out.len();
        while p > 0 && !entry_not_after(&out[p - 1], &e)
            invariant
                p <= out@.len(),
                pre == plan_view(out@),
                e@ == ev[i as int],
                i < ev.len(),
                forall|q: int| p <= q < pre.len() ==> !entry_le(#[trigger] pre[q], e@),
            decreases p,
        {
            p = p - 1;
        }
        proof {
            lemma_insert_entry_at(pre, e@, p as int);
        }
        out.insert(p, e);
        i = i + 1;
        proof {
            assert(out@.map_values(|x: PlanEntry| x@) =~= pre.take(p as int) + seq![ev[i as int
                - 1]] + pre.skip(p as int));
            assert(ev.take(i as int).drop_last() =~= ev.take(i as int - 1));
            assert(ev.take(i as int).last() == ev[i as int - 1]);
            assert(plan_view(out@) =~= insert_entry_sorted(pre, ev[i as int - 1]));
        }
    }
    proof {
        assert(ev.take(ev.len() as int) =~= ev);
    }
    out
}

/// The conflict errors of a staged plan, given one existence flag per
/// candidate destination: one error per flagged entry, naming the source and
/// carrying the occupied destination.
pub open spec fn conflicts_spec(entries: Seq<PlanEntryV>, flags: Seq<bool>) -> Seq<
    ValidationErrorV,
>
    decreases entries.len(),
{
    if entries.len() == 0 {
        Seq::empty()
    } else {
        let pre = conflicts_spec(entries.drop_last(), flags.drop_last());
        if flags[entries.len() - 1] {
            pre.push(
                ValidationErrorV {
                    file: entries.last().source,
                    reason: ReasonV::DestinationExists(entries.last().dest),
                },
            )
        } else {
            pre
        }
    }
}

/// No silent overwrite: every flagged entry contributes its conflict error —
/// a source whose destination already exists always appears in the error
/// set.
pub proof fn lemma_no_silent_overwrite(entries: Seq<PlanEntryV>, flags: Seq<bool>, i: int)
    requires
        entries.len() == flags.len(),
        0 <= i < entries.len(),
        flags[i],
    ensures
        exists|j: int|
            0 <= j < conflicts_spec(entries, flags).len() && conflicts_spec(entries, flags)[j]
                == (ValidationErrorV {
                file: entries[i].source,
                reason: ReasonV::DestinationExists(entries[i].dest),
            }),
    decreases entries.len(),
{
    let cs = conflicts_spec(entries, flags);
    if i == entries.len() - 1 {
        assert(cs[cs.len() - 1] == ValidationErrorV {
            file: entries[i].source,
            reason: ReasonV::DestinationExists(entries[i].dest),
        });
    } else {
        lemma_no_silent_overwrite(entries.drop_last(), flags.drop_last(), i);
        let pre = conflicts_spec(entries.drop_last(), flags.drop_last());
        let j = choose|j: int|
            0 <= j < pre.len() && pre[j] == (ValidationErrorV {
                file: entries.drop_last()[i].source,
                reason: ReasonV::DestinationExists(entries.drop_last()[i].dest),
            });
        assert(cs[j] == pre[j]);
        assert(entries.drop_last()[i] == entries[i]);
    }
}

/// Conflicts are empty exactly when no flag is set.
pub proof fn lemma_conflicts_empty(entries: Seq<PlanEntryV>, flags: Seq<bool>)
    requires
        entries.len() == flags.len(),
    ensures
        conflicts_spec(entries, flags).len() == 0 <==> (forall|i: int|
            0 <= i < flags.len() ==> !flags[i]),
    decreases entries.len(),
{
    if entries.len() > 0 {
        lemma_conflicts_empty(entries.drop_last(), flags.drop_last());
        if conflicts_spec(entries, flags).len() == 0 {
            assert forall|i: int| 0 <= i < flags.len() implies !flags[i] by {
                if i < flags.len() - 1 {
                    assert(!flags.drop_last()[i]);
                }
            }
        }
        if forall|i: int| 0 <= i < flags.len() ==> !flags[i] {
            assert forall|i: int| 0 <= i < flags.drop_last().len() implies !flags.drop_last()[i] by {
                assert(!flags[i]);
            }
        }
    }
}

/// An earlier staged entry already claims this entry's destination.
pub open spec fn dup_at(entries: Seq<PlanEntryV>, i: int) -> bool {
    exists|m: int| 0 <= m < i && (#[trigger] entries[m]).dest == entries[i].dest
}

/// The duplicate-destination errors of a staged plan: one error per entry
/// whose destination an earlier entry already claims, naming the later
/// source and carrying the shared destination.
pub open spec fn dup_conflicts_spec(entries: Seq<PlanEntryV>) -> Seq<ValidationErrorV>
    decreases entries.len(),
{
    if entries.len() == 0 {
        Seq::empty()
    } else {
        let pre = dup_conflicts_spec(entries.drop_last());
        if dup_at(entries, entries.len() - 1) {
            pre.push(
                ValidationErrorV {
                    file: entries.last().source,
                    reason: ReasonV::DuplicateDestination(entries.last().dest),
                },
            )
        } else {
            pre
        }
    }
}

/// Dropping the last entry does not change whether an earlier entry
/// duplicates a destination.
proof fn lemma_dup_at_prefix(entries: Seq<PlanEntryV>, i: int)
    requires
        0 <= i < entries.len() - 1,
    ensures
        dup_at(entries.drop_last(), i) == dup_at(entries, i),
{
    if dup_at(entries.drop_last(), i) {
        let m = choose|m: int|
            0 <= m < i && (#[trigger] entries.drop_last()[m]).dest == entries.drop_last()[i].dest;
        assert((entries[m]).dest == entries[i].dest);
    }
    if dup_at(entries, i) {
        let m = choose|m: int| 0 <= m < i && (#[trigger] entries[m]).dest == entries[i].dest;
        assert((entries.drop_last()[m]).dest == entries.drop_last()[i].dest);
    }
}

/// There are no duplicate-destination errors exactly when the staged
/// destinations are pairwise distinct.
pub proof fn lemma_dups_empty(entries: Seq<PlanEntryV>)
    ensures
        dup_conflicts_spec(entries).len() == 0 <==> (forall|i: int|
            0 <= i < entries.len() ==> !dup_at(entries, i)),
    decreases entries.len(),
{
    if entries.len() > 0 {
        lemma_dups_empty(entries.drop_last());
        if dup_conflicts_spec(entries).len() == 0 {
            assert forall|i: int| 0 <= i < entries.len() implies !dup_at(entries, i) by {
                if i < entries.len() - 1 {
                    assert(!dup_at(entries.drop_last(), i));
                    lemma_dup_at_prefix(entries, i);
                }
            }
        }
        if forall|i: int| 0 <= i < entries.len() ==> !dup_at(entries, i) {
            assert forall|i: int|
                0 <= i < entries.drop_last().len() implies !dup_at(entries.drop_last(), i) by {
                assert(!dup_at(entries, i));
                lemma_dup_at_prefix(entries, i);
            }
        }
    }
}

/// Every duplicated destination contributes its error: a source whose
/// destination another staged file already claims always appears in the
/// error set.
pub proof fn lemma_duplicate_reported(entries: Seq<PlanEntryV>, i: int)
    requires
        0 <= i < entries.len(),
        dup_at(entries, i),
    ensures
        exists|j: int|
            0 <= j < dup_conflicts_spec(entries).len() && dup_conflicts_spec(entries)[j]
                == (ValidationErrorV {
                file: entries[i].source,
                reason: ReasonV::DuplicateDestination(entries[i].dest),
            }),
    decreases entries.len(),
{
    let cs = dup_conflicts_spec(entries);
    if i == entries.len() - 1 {
        assert(cs[cs.len() - 1] == ValidationErrorV {
            file: entries[i].source,
            reason: ReasonV::DuplicateDestination(entries[i].dest),
        });
    } else {
        lemma_dup_at_prefix(entries, i);
        lemma_duplicate_reported(entries.drop_last(), i);
        let pre = dup_conflicts_spec(entries.drop_last());
        let j = choose|j: int|
            0 <= j < pre.len() && pre[j] == (ValidationErrorV {
                file: entries.drop_last()[i].source,
                reason: ReasonV::DuplicateDestination(entries.drop_last()[i].dest),
            });
        assert(cs[j] == pre[j]);
        assert(entries.drop_last()[i] == entries[i]);
    }
}

/// Destinations stay pairwise distinct across any permutation.
proof fn lemma_perm_distinct_dests(x: Seq<PlanEntryV>, y: Seq<PlanEntryV>)
    requires
        x.to_multiset() == y.to_multiset(),
        forall|i: int, j: int|
            0 <= i < j < x.len() ==> (#[trigger] x[i]).dest != (#[trigger] x[j]).dest,
    ensures
        forall|i: int, j: int|
            0 <= i < j < y.len() ==> (#[trigger] y[i]).dest != (#[trigger] y[j]).dest,
{
    assert forall|i: int, j: int|
        0 <= i < j < y.len() implies (#[trigger] y[i]).dest != (#[trigger] y[j]).dest by {
        if y[i].dest == y[j].dest {
            if y[i] == y[j] {
                let v = y[i];
                assert(y.remove(i).to_multiset() == y.to_multiset().remove(v));
                y.remove_ensures(i);
                assert(y.remove(i)[j - 1] == v);
                assert(y.remove(i).contains(v));
                assert(y.remove(i).to_multiset().count(v) > 0);
                assert(x.to_multiset().count(v) >= 2);
                assert(x.to_multiset().contains(v));
                assert(x.contains(v));
                let a = choose|a: int| 0 <= a < x.len() && x[a] == v;
                assert(x.remove(a).to_multiset() == x.to_multiset().remove(v));
                assert(x.remove(a).to_multiset().count(v) > 0);
                assert(x.remove(a).contains(v));
                let c = choose|c: int| 0 <= c < x.remove(a).len() && x.remove(a)[c] == v;
                x.remove_ensures(a);
                if c < a {
                    assert(x[c] == v && x[a] == v && c != a);
                } else {
                    assert(x[c + 1] == v && x[a] == v && c + 1 != a);
                }
            } else {
                assert(y.to_multiset().contains(y[i]));
                assert(y.to_multiset().contains(y[j]));
                assert(x.contains(y[i]));
                assert(x.contains(y[j]));
                let a = choose|a: int| 0 <= a < x.len() && x[a] == y[i];
                let b = choose|b: int| 0 <= b < x.len() && x[b] == y[j];
                assert(x[a].dest == x[b].dest && a != b);
            }
        }
    }
}

/// The all-or-nothing validation step. With no staging error, no occupied
/// destination, and no two staged files sharing a destination, the complete
/// plan is returned, sorted by source path, its destinations pairwise
/// distinct; otherwise the complete, non-empty error set is returned — the
/// staging errors, one conflict error per occupied destination, and one per
/// duplicated destination — and nothing is planned.
pub fn finish_plan(
    entries: Vec<PlanEntry>,
    flags: &Vec<bool>,
    errors: Vec<ValidationError>,
) -> (r: Result<Vec<PlanEntry>, Vec<ValidationError>>)
    requires
        entries@.len() == flags@.len(),
    ensures
        match r {
            Ok(plan) => errors@.len() == 0 && (forall|i: int|
                0 <= i < flags@.len() ==> !flags@[i]) && (forall|i: int, j: int|
                0 <= i < j < plan_view(entries@).len() ==> (#[trigger] plan_view(entries@)[i]).dest
                    != (#[trigger] plan_view(entries@)[j]).dest) && plan_view(plan@)
                == sort_entries_spec(plan_view(entries@)) && (forall|i: int, j: int|
                0 <= i < j < plan_view(plan@).len() ==> (#[trigger] plan_view(plan@)[i]).dest != (
                #[trigger] plan_view(plan@)[j]).dest),
            Err(es) => errors_view(es@) == errors_view(errors@) + conflicts_spec(
                plan_view(entries@),
                flags@,
            ) + dup_conflicts_spec(plan_view(entries@)) && es@.len() >= 1 && (errors@.len() >= 1
                || (exists|i: int| 0 <= i < flags@.len() && flags@[i]) || (exists|i: int|
                0 <= i < plan_view(entries@).len() && dup_at(plan_view(entries@), i))),
        },
{
    let ghost ev = plan_view(entries@);
    let ghost base = errors_view(errors@);
    let mut errs = errors;
    let mut i: usize = 0;
    proof {
        assert(ev.take(0) =~= Seq::<PlanEntryV>::empty());
        assert(flags@.take(0) =~= Seq::<bool>::empty());
        assert(errors_view(errs@) =~= base + conflicts_spec(ev.take(0), flags@.take(0)));
    }
    while i < flags.len()
        invariant
            i <= flags@.len(),
            entries@.len() == flags@.len(),
            ev == plan_view(entries@),
            errors_view(errs@) == base + conflicts_spec(ev.take(i as int), flags@.take(i as int)),
        decreases flags@.len() - i,
    {
        let ghost pre = errors_view(errs@);
        if flags[i] {
            errs.push(
                ValidationError {
                    file: clone_bytes(&entries[i].source),
                    reason: Reason::DestinationExists(clone_bytes(&entries[i].dest)),
                },
            );
        }
        i = i + 1;
        proof {
            assert(ev.take(i as int).drop_last() =~= ev.take(i as int - 1));
            assert(flags@.take(i as int).drop_last() =~= flags@.take(i as int - 1));
            assert(ev.take(i as int).last() == ev[i as int - 1]);
            assert(flags@.take(i as int)[ev.take(i as int).len() - 1] == flags@[i as int - 1]);
            if flags@[i as int - 1] {
                assert(errors_view(errs@).drop_last() =~= pre);
                assert(errors_view(errs@) =~= pre.push(errors_view(errs@).last()));
            }
        }
    }
    proof {
        assert(ev.take(ev.len() as int) =~= ev);
        assert(flags@.take(flags@.len() as int) =~= flags@);
    }
    let ghost mid = base + conflicts_spec(ev, flags@);
    let mut i: usize = 0;
    proof {
        assert(errors_view(errs@) =~= mid + dup_conflicts_spec(ev.take(0)));
    }
    while i < entries.len()
        invariant
            i <= entries@.len(),
            ev == plan_view(entries@),
            errors_view(errs@) == mid + dup_conflicts_spec(ev.take(i as int)),
        decreases entries@.len() - i,
    {
        let mut dup = false;
        let mut j: usize = 0;
        while j < i
            invariant
                j <= i < entries@.len(),
                ev == plan_view(entries@),
                dup == exists|m: int|
                    0 <= m < j && (#[trigger] ev[m]).dest == ev[i as int].dest,
            decreases i - j,
        {
            let ghost dup_pre = dup;
            if crate::bytes::bytes_eq(entries[j].dest.as_slice(), entries[i].dest.as_slice()) {
                dup = true;
            }
            j = j + 1;
            proof {
                if dup_pre {
                    let m = choose|m: int|
                        0 <= m < j - 1 && (#[trigger] ev[m]).dest == ev[i as int].dest;
                    assert(0 <= m < j && ev[m].dest == ev[i as int].dest);
                } else if ev[j as int - 1].dest == ev[i as int].dest {
                    assert(0 <= j - 1 < j && ev[j as int - 1].dest == ev[i as int].dest);
                } else if exists|m: int|
                    0 <= m < j && (#[trigger] ev[m]).dest == ev[i as int].dest {
                    let m = choose|m: int|
                        0 <= m < j && (#[trigger] ev[m]).dest == ev[i as int].dest;
                    assert(m < j - 1);
                }
            }
        }
        let ghost pre = errors_view(errs@);
        if dup {
            errs.push(
                ValidationError {
                    file: clone_bytes(&entries[i].source),
                    reason: Reason::DuplicateDestination(clone_bytes(&entries[i].dest)),
                },
            );
        }
        i = i + 1;
        proof {
            let t = ev.take(i as int);
            assert(t.drop_last() =~= ev.take(i as int - 1));
            assert(t.last() == ev[i as int - 1]);
            if dup_at(t, i as int - 1) {
                let m = choose|m: int|
                    0 <= m < i - 1 && (#[trigger] t[m]).dest == t[i as int - 1].dest;
                assert(ev[m].dest == ev[i as int - 1].dest);
            }
            if exists|m: int| 0 <= m < i - 1 && (#[trigger] ev[m]).dest == ev[i as int - 1].dest {
                let m = choose|m: int|
                    0 <= m < i - 1 && (#[trigger] ev[m]).dest == ev[i as int - 1].dest;
                assert(t[m].dest == t[i as int - 1].dest);
                assert(dup_at(t, i as int - 1));
            }
            assert(dup == dup_at(t, i as int - 1));
            if dup {
                assert(errors_view(errs@).drop_last() =~= pre);
                assert(errors_view(errs@) =~= pre.push(errors_view(errs@).last()));
            }
        }
    }
    proof {
        assert(ev.take(ev.len() as int) =~= ev);
    }
    if errs.len() == 0 {
        proof {
            assert(base.len() == 0);
            assert(conflicts_spec(ev, flags@).len() == 0);
            assert(dup_conflicts_spec(ev).len() == 0);
            lemma_conflicts_empty(ev, flags@);
            lemma_dups_empty(ev);
            assert forall|a: int, b: int|
                0 <= a < b < ev.len() implies (#[trigger] ev[a]).dest != (#[trigger] ev[b]).dest by {
                if ev[a].dest == ev[b].dest {
                    assert(0 <= a < b && ev[a].dest == ev[b].dest);
                    assert(dup_at(ev, b));
                }
            }
            lemma_sort_entries_ensures(ev);
            lemma_perm_distinct_dests(ev, sort_entries_spec(ev));
        }
        Ok(sort_entries(entries))
    } else {
        proof {
            if base.len() == 0 {
                if conflicts_spec(ev, flags@).len() >= 1 {
                    lemma_conflicts_empty(ev, flags@);
                    if forall|m: int| 0 <= m < flags@.len() ==> !flags@[m] {
                        assert(false);
                    }
                } else {
                    assert(dup_conflicts_spec(ev).len() >= 1);
                    lemma_dups_empty(ev);
                    if forall|m: int| 0 <= m < ev.len() ==> !dup_at(ev, m) {
                        assert(false);
                    }
                }
            }
        }
        Err(errs)
    }
}

/// Per-file staging of a fully healthy unit is complete: with every file a
/// readable regular source, no error arises and every file stages to the
/// destination computed from its own name and classification.
proof fn lemma_files_plan_clean(
    files: Seq<FileEntryV>,
    row: Seq<FileStat>,
    root: Seq<u8>,
    default: Tree,
    date: Timestamp,
    folder: Option<Seq<u8>>,
)
    requires
        files.len() == row.len(),
        forall|k: int| 0 <= k < row.len() ==> (#[trigger] row[k]).readable && row[k].regular,
    ensures
        files_plan(files, row, root, default, date, folder).1 =~= Seq::<ValidationErrorV>::empty(),
        files_plan(files, row, root, default, date, folder).0.len() == files.len(),
        forall|k: int|
            0 <= k < files.len() ==> files_plan(files, row, root, default, date, folder).0[k] == (
            PlanEntryV {
                source: files[k].path,
                dest: dest_path(root, tree_of(files[k].name, default), date, folder, files[k].name),
            }),
    decreases files.len(),
{
    if files.len() > 0 {
        assert(forall|k: int|
            0 <= k < row.drop_last().len() ==> row.drop_last()[k] == #[trigger] row[k]);
        lemma_files_plan_clean(files.drop_last(), row.drop_last(), root, default, date, folder);
        assert(row[files.len() - 1].readable && row[files.len() - 1].regular);
        let whole = files_plan(files, row, root, default, date, folder);
        let pre = files_plan(files.drop_last(), row.drop_last(), root, default, date, folder);
        assert forall|k: int| 0 <= k < files.len() implies whole.0[k] == (PlanEntryV {
            source: files[k].path,
            dest: dest_path(root, tree_of(files[k].name, default), date, folder, files[k].name),
        }) by {
            if k < files.len() - 1 {
                assert(whole.0[k] == pre.0[k]);
                assert(files.drop_last()[k] == files[k]);
            }
        }
    }
}

/// A fully healthy unit plans completely: when its capture date resolves,
/// the cutoff does not exclude it, and every one of its files is a readable
/// regular source, staging raises no error and emits exactly one entry per
/// file, each to the destination computed from the unit's date, its sequence
/// folder, and the file's own name and classification. In particular every
/// file of a unit tagged with a sequence folder lands inside that folder
/// under the unit's date partition.
pub proof fn lemma_unit_plan_complete(
    u: UnitV,
    row: Seq<FileStat>,
    cache: Seq<MetaEntryV>,
    tags: Map<Seq<u8>, SequenceTagV>,
    root: Seq<u8>,
    cutoff: Option<Timestamp>,
    date: Timestamp,
)
    requires
        row.len() == u.files.len(),
        unit_date(u, cache, row) == Ok::<Timestamp, ValidationErrorV>(date),
        match cutoff {
            Some(c) => !ts_le(date, c),
            None => true,
        },
        forall|k: int| 0 <= k < row.len() ==> (#[trigger] row[k]).readable && row[k].regular,
    ensures
        unit_plan(u, row, cache, tags, root, cutoff).1 =~= Seq::<ValidationErrorV>::empty(),
        unit_plan(u, row, cache, tags, root, cutoff).0.len() == u.files.len(),
        forall|k: int|
            0 <= k < u.files.len() ==> unit_plan(u, row, cache, tags, root, cutoff).0[k] == (
            PlanEntryV {
                source: u.files[k].path,
                dest: dest_path(
                    root,
                    tree_of(u.files[k].name, default_tree(u)),
                    date,
                    unit_folder(u, tags),
                    u.files[k].name,
                ),
            }),
{
    lemma_files_plan_clean(u.files, row, root, default_tree(u), date, unit_folder(u, tags));
}

} // verus!
