//! Helpers for incremental runs. The caller derives the cutoff by scanning
//! the existing destination tree for its most recent photo: it walks the
//! numeric year/month/day directories newest-first and keeps the latest
//! capture or modification time it sees. The ordering and the fold live
//! here; the walk itself is the caller's.

use vstd::prelude::*;
use crate::bytes::{digits_value, is_digit, parse_digits_u32};
use crate::time::{ts_lt, ts_before, Timestamp};

verus! {

broadcast use {vstd::seq_lib::group_to_multiset_ensures, vstd::multiset::group_multiset_axioms};

/// The digits of a decimal number string, behind an optional leading `+`.
pub open spec fn decimal_digits(s: Seq<u8>) -> Seq<u8> {
    if s.len() > 0 && s[0] == '+' as u8 {
        s.drop_first()
    } else {
        s
    }
}

/// The string is a decimal `u32`: an optional leading `+`, then at least one
/// digit, nothing else, and a value that fits.
pub open spec fn decimal_accepted(s: Seq<u8>) -> bool {
    &&& decimal_digits(s).len() >= 1
    &&& (forall|j: int| 0 <= j < decimal_digits(s).len() ==> is_digit(#[trigger] decimal_digits(s)[j]))
    &&& digits_value(decimal_digits(s)) <= u32::MAX
}

/// Parses a directory name as a decimal `u32`, as the year, month and day
/// directories of the destination tree are named.
pub fn parse_decimal_u32(name: &[u8]) -> (r: Option<u32>)
    ensures
        match r {
            Some(v) => decimal_accepted(name@) && v as nat == digits_value(decimal_digits(name@)),
            None => !decimal_accepted(name@),
        },
{
    let from: usize = if name.len() > 0 && name[0] == '+' as u8 {
        1
    } else {
        0
    };
    proof {
        if from == 1 {
            assert(decimal_digits(name@) =~= name@.skip(1));
        } else {
            assert(decimal_digits(name@) =~= name@.skip(0));
        }
    }
    if name.len() == from {
        return None;
    }
    let mut j: usize = from;
    while j < name.len()
        invariant
            from <= j <= name@.len(),
            decimal_digits(name@) == name@.skip(from as int),
            forall|m: int| from <= m < j ==> is_digit(#[trigger] name@[m]),
        decreases name@.len() - j,
    {
        let b = name[j];
        if !('0' as u8 <= b && b <= '9' as u8) {
            proof {
                assert(decimal_digits(name@)[j - from] == name@[j as int]);
            }
            return None;
        }
        j = j + 1;
    }
    proof {
        assert forall|m: int|
            0 <= m < decimal_digits(name@).len() implies is_digit(
            #[trigger] decimal_digits(name@)[m],
        ) by {
            assert(decimal_digits(name@)[m] == name@[m + from]);
        }
        assert(name@.subrange(from as int, name@.len() as int) =~= decimal_digits(name@));
    }
    parse_digits_u32(name, from, name.len())
}

/// The later of the latest timestamp seen so far and a new one.
pub open spec fn later_of(cur: Option<Timestamp>, t: Timestamp) -> Option<Timestamp> {
    match cur {
        None => Some(t),
        Some(c) => if ts_lt(c, t) {
            Some(t)
        } else {
            Some(c)
        },
    }
}

/// Folds one more timestamp into the latest seen so far.
pub fn later_timestamp(cur: Option<Timestamp>, t: Timestamp) -> (r: Option<Timestamp>)
    ensures
        r == later_of(cur, t),
{
    match cur {
        None => Some(t),
        Some(c) => if ts_before(&c, &t) {
            Some(t)
        } else {
            Some(c)
        },
    }
}

/// The sequence is sorted in descending order.
pub open spec fn sorted_desc(s: Seq<u32>) -> bool {
    forall|i: int, j: int| 0 <= i < j < s.len() ==> s[i] >= s[j]
}

/// Inserts a number at its place in a descending sequence, counting from the
/// back.
pub open spec fn insert_desc(s: Seq<u32>, x: u32) -> Seq<u32>
    decreases s.len(),
{
    if s.len() == 0 {
        seq![x]
    } else if s.last() >= x {
        s.push(x)
    } else {
        insert_desc(s.drop_last(), x).push(s.last())
    }
}

/// Insertion sort in descending order.
pub open spec fn sort_desc_spec(s: Seq<u32>) -> Seq<u32>
    decreases s.len(),
{
    if s.len() == 0 {
        s
    } else {
        insert_desc(sort_desc_spec(s.drop_last()), s.last())
    }
}

proof fn lemma_insert_desc_at(s: Seq<u32>, x: u32, p: int)
    requires
        0 <= p <= s.len(),
        p > 0 ==> s[p - 1] >= x,
        forall|q: int| p <= q < s.len() ==> !(s[q] >= x),
    ensures
        insert_desc(s, x) =~= s.take(p) + seq![x] + s.skip(p),
    decreases s.len(),
{
    if s.len() == 0 {
    } else if s.last() >= x {
        assert(p == s.len());
        assert(s.take(p) =~= s);
        assert(s.skip(p) =~= Seq::<u32>::empty());
    } else {
        assert(p < s.len());
        lemma_insert_desc_at(s.drop_last(), x, p);
        assert(s.drop_last().take(p) =~= s.take(p));
        assert(s.drop_last().skip(p).push(s.last()) =~= s.skip(p));
    }
}

proof fn lemma_insert_desc_ensures(s: Seq<u32>, x: u32)
    requires
        sorted_desc(s),
    ensures
        sorted_desc(insert_desc(s, x)),
        insert_desc(s, x).to_multiset() =~= s.to_multiset().insert(x),
        insert_desc(s, x).len() == s.len() + 1,
    decreases s.len(),
{
    if s.len() == 0 {
        assert(seq![x] =~= Seq::<u32>::empty().push(x));
    } else if s.last() >= x {
        let out = s.push(x);
        assert forall|i: int, j: int| 0 <= i < j < out.len() implies out[i] >= out[j] by {
            if j == out.len() - 1 && i < s.len() - 1 {
                assert(s[i] >= s[s.len() - 1]);
            }
        }
    } else {
        let rest = insert_desc(s.drop_last(), x);
        assert(forall|i: int, j: int|
            0 <= i < j < s.drop_last().len() ==> s.drop_last()[i] >= s.drop_last()[j]);
        lemma_insert_desc_ensures(s.drop_last(), x);
        let out = rest.push(s.last());
        assert forall|i: int, j: int| 0 <= i < j < out.len() implies out[i] >= out[j] by {
            if j == out.len() - 1 {
                assert(rest.to_multiset().contains(rest[i]));
                if s.drop_last().to_multiset().contains(rest[i]) {
                    let m = choose|m: int|
                        0 <= m < s.drop_last().len() && #[trigger] s.drop_last()[m] == rest[i];
                    assert(s[m] >= s[s.len() - 1]);
                } else {
                    assert(rest[i] == x);
                }
            }
        }
        assert(s.drop_last().push(s.last()) =~= s);
        assert(s.drop_last().push(s.last()).to_multiset() =~= s.drop_last()
            .to_multiset().insert(s.last()));
    }
}

/// The descending sort is sorted and a permutation of its input.
pub proof fn lemma_sort_desc_ensures(s: Seq<u32>)
    ensures
        sorted_desc(sort_desc_spec(s)),
        sort_desc_spec(s).to_multiset() =~= s.to_multiset(),
        sort_desc_spec(s).len() == s.len(),
    decreases s.len(),
{
    if s.len() > 0 {
        lemma_sort_desc_ensures(s.drop_last());
        lemma_insert_desc_ensures(sort_desc_spec(s.drop_last()), s.last());
        assert(s.drop_last().push(s.last()) =~= s);
        assert(s.drop_last().push(s.last()).to_multiset() =~= s.drop_last()
            .to_multiset().insert(s.last()));
    }
}

/// Sorts directory numbers newest-first.
pub fn sort_desc_u32(v: &Vec<u32>) -> (r: Vec<u32>)
    ensures
        r@ == sort_desc_spec(v@),
{
    let mut out: Vec<u32> = Vec::new();
    let mut i: usize = 0;
    proof {
        assert(v@.take(0) =~= Seq::<u32>::empty());
    }
    while i < v.len()
        invariant
            i <= v@.len(),
            out@ == sort_desc_spec(v@.take(i as int)),
        decreases v@.len() - i,
    {
        let x = v[i];
        let ghost pre = out@;
        let mut p: usize = out.len();
        while p > 0 && !(out[p - 1] >= x)
            invariant
                p <= out@.len(),
                pre == out@,
                x == v@[i as int],
                i < v@.len(),
                forall|q: int| p <= q < pre.len() ==> !(pre[q] >= x),
            decreases p,
        {
            p = p - 1;
        }
        proof {
            lemma_insert_desc_at(pre, x, p as int);
        }
        out.insert(p, x);
        i = i + 1;
        proof {
            assert(v@.take(i as int).drop_last() =~= v@.take(i as int - 1));
            assert(v@.take(i as int).last() == v@[i as int - 1]);
            assert(out@ =~= insert_desc(pre, v@[i as int - 1]));
        }
    }
    proof {
        assert(v@.take(v@.len() as int) =~= v@);
    }
    out
}

} // verus!
