//! File-name classification: raw photo files, JPEG files, sidecar format
//! tags, and the base key that groups the files of one photo unit.

use vstd::prelude::*;
use vstd::string::StringSliceAdditionalSpecFns;
use crate::bytes::{ends_with_ci, has_suffix_ci, lower_bytes, upper_bytes, to_upper_bytes, bytes_eq};

verus! {

/// The file name carries one of the raw-format extensions
/// (cr2, nef, arw, dng, raw, orf), compared case-insensitively.
pub open spec fn is_raw_name(name: Seq<u8>) -> bool {
    ||| ends_with_ci(name, ".cr2".spec_bytes())
    ||| ends_with_ci(name, ".nef".spec_bytes())
    ||| ends_with_ci(name, ".arw".spec_bytes())
    ||| ends_with_ci(name, ".dng".spec_bytes())
    ||| ends_with_ci(name, ".raw".spec_bytes())
    ||| ends_with_ci(name, ".orf".spec_bytes())
}

/// The file name carries a JPEG extension, compared case-insensitively.
pub open spec fn is_jpeg_name(name: Seq<u8>) -> bool {
    ||| ends_with_ci(name, ".jpg".spec_bytes())
    ||| ends_with_ci(name, ".jpeg".spec_bytes())
}

/// The file is a photo: raw or JPEG.
pub open spec fn is_photo_name(name: Seq<u8>) -> bool {
    is_raw_name(name) || is_jpeg_name(name)
}

/// The file name carries a raw-format extension.
pub fn is_raw_file(name: &[u8]) -> (r: bool)
    ensures
        r == is_raw_name(name@),
{
    has_suffix_ci(name, ".cr2".as_bytes()) || has_suffix_ci(name, ".nef".as_bytes())
        || has_suffix_ci(name, ".arw".as_bytes()) || has_suffix_ci(name, ".dng".as_bytes())
        || has_suffix_ci(name, ".raw".as_bytes()) || has_suffix_ci(name, ".orf".as_bytes())
}

/// The file name carries a JPEG extension.
pub fn is_jpeg_file(name: &[u8]) -> (r: bool)
    ensures
        r == is_jpeg_name(name@),
{
    has_suffix_ci(name, ".jpg".as_bytes()) || has_suffix_ci(name, ".jpeg".as_bytes())
}

/// The file is a photo: raw or JPEG.
pub fn is_photo_file(name: &[u8]) -> (r: bool)
    ensures
        r == is_photo_name(name@),
{
    is_raw_file(name) || is_jpeg_file(name)
}

/// Length of the unit key in a file name: the number of bytes before the
/// first `.`, or the whole name when there is none.
pub open spec fn key_len(name: Seq<u8>) -> int
    decreases name.len(),
{
    if name.len() == 0 {
        0
    } else if name[0] == '.' as u8 {
        0
    } else {
        1 + key_len(name.drop_first())
    }
}

/// The unit key of a file name: everything before the first `.`.
pub open spec fn base_key_of(name: Seq<u8>) -> Seq<u8> {
    name.take(key_len(name))
}

/// The key is a prefix of the name; no `.` occurs inside it; and when it is
/// shorter than the name, a `.` follows it.
pub proof fn lemma_key_len(name: Seq<u8>)
    ensures
        0 <= key_len(name) <= name.len(),
        forall|j: int| 0 <= j < key_len(name) ==> name[j] != '.' as u8,
        key_len(name) < name.len() ==> name[key_len(name)] == '.' as u8,
    decreases name.len(),
{
    if name.len() > 0 && name[0] != '.' as u8 {
        lemma_key_len(name.drop_first());
        assert(forall|j: int|
            1 <= j < key_len(name) ==> name[j] == name.drop_first()[j - 1]);
    }
}

/// The unit key of a file name: everything before the first `.`, the whole
/// name when it has no `.`.
pub fn base_key(name: &[u8]) -> (r: Vec<u8>)
    ensures
        r@ == base_key_of(name@),
{
    proof {
        lemma_key_len(name@);
    }
    let mut out: Vec<u8> = Vec::new();
    let mut i: usize = 0;
    while i < name.len()
        invariant
            i <= name@.len(),
            out@ =~= name@.take(i as int),
            forall|j: int| 0 <= j < i ==> name@[j] != '.' as u8,
            0 <= key_len(name@) <= name@.len(),
            forall|j: int| 0 <= j < key_len(name@) ==> name@[j] != '.' as u8,
            key_len(name@) < name@.len() ==> name@[key_len(name@)] == '.' as u8,
        decreases name@.len() - i,
    {
        if name[i] == '.' as u8 {
            proof {
                assert(key_len(name@) <= i);
                assert(key_len(name@) >= i);
                assert(out@ =~= base_key_of(name@));
            }
            return out;
        }
        out.push(name[i]);
        i = i + 1;
        proof {
            assert(out@ =~= name@.take(i as int));
        }
    }
    proof {
        assert(key_len(name@) == name@.len());
        assert(out@ =~= base_key_of(name@));
    }
    out
}

/// Index of the last `.` in the byte string, or `-1` when there is none.
pub open spec fn last_dot(name: Seq<u8>) -> int
    decreases name.len(),
{
    if name.len() == 0 {
        -1
    } else if name.last() == '.' as u8 {
        name.len() - 1
    } else {
        last_dot(name.drop_last())
    }
}

/// The name has the sidecar shape `<base>.<FORMAT>.<ext>`: at least three
/// dot-separated components, that is at least two dots.
pub open spec fn sidecar_shape(name: Seq<u8>) -> bool {
    last_dot(name) >= 0 && last_dot(name.take(last_dot(name))) >= 0
}

/// The format tag of a sidecar name: the component between the last two
/// dots, ASCII-uppercased.
pub open spec fn sidecar_tag_of(name: Seq<u8>) -> Seq<u8> {
    upper_bytes(name.subrange(last_dot(name.take(last_dot(name))) + 1, last_dot(name)))
}

proof fn lemma_last_dot_range(name: Seq<u8>)
    ensures
        -1 <= last_dot(name) < name.len(),
    decreases name.len(),
{
    if name.len() > 0 && name.last() != '.' as u8 {
        lemma_last_dot_range(name.drop_last());
    }
}

/// Index of the last `.` strictly before `end`, or `None`.
fn rfind_dot(name: &[u8], end: usize) -> (r: Option<usize>)
    requires
        end <= name@.len(),
    ensures
        match r {
            Some(i) => i < end && last_dot(name@.take(end as int)) == i,
            None => last_dot(name@.take(end as int)) == -1,
        },
{
    let mut i: usize = end;
    while i > 0
        invariant
            i <= end <= name@.len(),
            last_dot(name@.take(end as int)) == last_dot(name@.take(i as int)),
        decreases i,
    {
        i = i - 1;
        if name[i] == '.' as u8 {
            proof {
                assert(name@.take(i as int + 1).last() == name@[i as int]);
            }
            return Some(i);
        }
        proof {
            assert(name@.take(i as int + 1).last() == name@[i as int]);
            assert(name@.take(i as int + 1).drop_last() =~= name@.take(i as int));
        }
    }
    None
}

/// Extracts the format tag from a sidecar file name of the shape
/// `<base>.<FORMAT>.<ext>`: the second-to-last dot-separated component,
/// uppercased. Returns `None` when the name has fewer than three components.
pub fn sidecar_format_tag(name: &[u8]) -> (r: Option<Vec<u8>>)
    ensures
        match r {
            Some(tag) => sidecar_shape(name@) && tag@ == sidecar_tag_of(name@),
            None => !sidecar_shape(name@),
        },
{
    proof {
        assert(name@.take(name@.len() as int) =~= name@);
    }
    let last = match rfind_dot(name, name.len()) {
        Some(i) => i,
        None => {
            return None;
        },
    };
    let prev = match rfind_dot(name, last) {
        Some(i) => i,
        None => {
            return None;
        },
    };
    proof {
        lemma_last_dot_range(name@);
        assert(name@.take(last_dot(name@)) == name@.take(last as int));
    }
    let mut component: Vec<u8> = Vec::new();
    let mut j: usize = prev + 1;
    while j < last
        invariant
            prev + 1 <= j <= last < name@.len(),
            component@ =~= name@.subrange(prev + 1, j as int),
        decreases last - j,
    {
        component.push(name[j]);
        j = j + 1;
        proof {
            assert(component@ =~= name@.subrange(prev + 1, j as int));
        }
    }
    let tag = to_upper_bytes(component.as_slice());
    proof {
        assert(component@ =~= name@.subrange(prev + 1, last as int));
    }
    Some(tag)
}

/// Destination tree for a file: the raw tree or the JPEG tree.
#[derive(PartialEq, Eq, Structural, Clone, Copy, Debug)]
pub enum Tree {
    Raw,
    Jpeg,
}

/// The uppercased sidecar tag names a raw format.
pub open spec fn is_raw_tag(t: Seq<u8>) -> bool {
    ||| t == "ORF".spec_bytes()
    ||| t == "CR2".spec_bytes()
    ||| t == "NEF".spec_bytes()
    ||| t == "ARW".spec_bytes()
    ||| t == "DNG".spec_bytes()
    ||| t == "RAW".spec_bytes()
}

/// The uppercased sidecar tag names a JPEG format.
pub open spec fn is_jpeg_tag(t: Seq<u8>) -> bool {
    t == "JPG".spec_bytes() || t == "JPEG".spec_bytes()
}

/// Destination tree of one file. A name of sidecar shape whose embedded
/// format tag names a known format follows that tag, whatever its own
/// literal extension says: `IMG020.CR2.jpg` belongs to the raw tree of the
/// `CR2` it annotates. Otherwise raw and JPEG extensions pick their own
/// trees, and anything left follows the unit's default tree.
pub open spec fn tree_of(name: Seq<u8>, default: Tree) -> Tree {
    if sidecar_shape(name) && is_raw_tag(sidecar_tag_of(name)) {
        Tree::Raw
    } else if sidecar_shape(name) && is_jpeg_tag(sidecar_tag_of(name)) {
        Tree::Jpeg
    } else if is_raw_name(name) {
        Tree::Raw
    } else if is_jpeg_name(name) {
        Tree::Jpeg
    } else {
        default
    }
}

/// Destination tree of one file, from its name and its unit's default tree.
pub fn target_tree(name: &[u8], default: Tree) -> (r: Tree)
    ensures
        r == tree_of(name@, default),
{
    match sidecar_format_tag(name) {
        Some(tag) => {
            let t = tag.as_slice();
            if bytes_eq(t, "ORF".as_bytes()) || bytes_eq(t, "CR2".as_bytes()) || bytes_eq(
                t,
                "NEF".as_bytes(),
            ) || bytes_eq(t, "ARW".as_bytes()) || bytes_eq(t, "DNG".as_bytes()) || bytes_eq(
                t,
                "RAW".as_bytes(),
            ) {
                return Tree::Raw;
            }
            if bytes_eq(t, "JPG".as_bytes()) || bytes_eq(t, "JPEG".as_bytes()) {
                return Tree::Jpeg;
            }
        },
        None => {},
    }
    if is_raw_file(name) {
        return Tree::Raw;
    }
    if is_jpeg_file(name) {
        return Tree::Jpeg;
    }
    default
}

} // verus!
