//! Position assignment from alignment geometry and barcode extraction
//! from a read's identifier.

use vstd::prelude::*;

use crate::UmiError;

verus! {

/// What the core reads of one alignment record: the mapping flags, the
/// aligned span, the soft-clip lengths recorded in the CIGAR, and the
/// identifier bytes that end with the UMI barcode. The caller fills it
/// from its alignment reader; `start` and `end` are the record's reported
/// alignment start and end coordinates.
pub struct ReadRecord {
    pub mapped: bool,
    pub reverse_strand: bool,
    pub start: i32,
    pub end: i32,
    pub has_cigar: bool,
    pub leading_soft_clip: u32,
    pub trailing_soft_clip: u32,
    pub name: Vec<u8>,
}

/// The position key of a mapped record under the strict CIGAR-aware
/// policy: a reverse-strand read groups by its alignment end pushed right
/// by the trailing soft clip, a forward-strand read by its alignment
/// start pulled left by the leading soft clip, so that soft-clipped reads
/// group with reads covering the same reference region. A mapped record
/// without a CIGAR has no key: that is a fatal fault of the input.
pub open spec fn spec_read_pos(r: ReadRecord) -> Option<i64> {
    if !r.has_cigar {
        None
    } else if r.reverse_strand {
        Some((r.end + r.trailing_soft_clip) as i64)
    } else {
        Some((r.start - r.leading_soft_clip) as i64)
    }
}

/// Position key of a record under the strict CIGAR-aware policy, or
/// `None` when the record lacks a CIGAR.
pub fn get_read_pos(read: &ReadRecord) -> (r: Option<i64>)
    ensures
        r == spec_read_pos(*read),
{
    if !read.has_cigar {
        None
    } else if read.reverse_strand {
        Some(read.end as i64 + read.trailing_soft_clip as i64)
    } else {
        Some(read.start as i64 - read.leading_soft_clip as i64)
    }
}

/// The suffix of `name` after the last separator occurrence, where
/// occurrences are found scanning left to right without overlap, as a
/// splitting scan finds them; `None` when the separator never occurs.
pub open spec fn spec_after_last_sep(name: Seq<u8>, sep: Seq<u8>) -> Option<Seq<u8>>
    decreases name.len(),
{
    if sep.len() == 0 || name.len() < sep.len() {
        None
    } else if name.take(sep.len() as int) == sep {
        let rest = name.skip(sep.len() as int);
        match spec_after_last_sep(rest, sep) {
            Some(f) => Some(f),
            None => Some(rest),
        }
    } else {
        spec_after_last_sep(name.drop_first(), sep)
    }
}

/// The UMI barcode of a read: the last field of its identifier when split
/// on the separator. An identifier in which the separator never occurs is
/// malformed and fails the run.
pub fn get_umi(name: &Vec<u8>, separator: &Vec<u8>) -> (r: Result<Vec<u8>, UmiError>)
    requires
        separator@.len() > 0,
    ensures
        match spec_after_last_sep(name@, separator@) {
            Some(f) => r matches Ok(b) && b@ == f,
            None => r == Err::<Vec<u8>, UmiError>(UmiError::MalformedIdentifier),
        },
{
    let n = name.len();
    let l = separator.len();
    if l > n {
        return Err(UmiError::MalformedIdentifier);
    }
    let mut i: usize = 0;
    // Start index of the field after the last separator seen so far.
    let mut field_start: usize = 0;
    let mut found = false;
    proof {
        assert(name@.skip(0) =~= name@);
    }
    while i <= n - l
        invariant
            n == name@.len(),
            l == separator@.len(),
            0 < l <= n,
            i <= n,
            found ==> field_start <= n,
            spec_after_last_sep(name@, separator@) == match spec_after_last_sep(
                name@.skip(i as int),
                separator@,
            ) {
                Some(f) => Some(f),
                None => if found {
                    Some(name@.skip(field_start as int))
                } else {
                    None::<Seq<u8>>
                },
            },
        decreases n - i,
    {
        let mut t: usize = 0;
        let mut matches_here = true;
        while t < l
            invariant
                n == name@.len(),
                l == separator@.len(),
                i + l <= n,
                t <= l,
                matches_here <==> name@.subrange(i as int, i + t) =~= separator@.take(t as int),
            decreases l - t,
        {
            proof {
                assert(name@.subrange(i as int, i + t + 1)
                    =~= name@.subrange(i as int, i + t).push(name@[i + t]));
                assert(separator@.take(t + 1) =~= separator@.take(t as int).push(
                    separator@[t as int],
                ));
            }
            if name[i + t] != separator[t] {
                matches_here = false;
                proof {
                    assert(name@.subrange(i as int, i + t + 1)[t as int] == name@[i + t]);
                    assert(separator@.take(t + 1)[t as int] == separator@[t as int]);
                }
                t = l;
            } else {
                if !matches_here {
                    proof {
                        let p = choose|p: int|
                            0 <= p < t && name@.subrange(i as int, i + t)[p] != separator@.take(
                                t as int,
                            )[p];
                        assert(name@.subrange(i as int, i + t + 1)[p] != separator@.take(t + 1)[p]);
                    }
                }
                t = t + 1;
            }
        }
        let ghost suffix = name@.skip(i as int);
        proof {
            assert(suffix.len() == n - i >= l);
            assert(suffix.take(l as int) =~= name@.subrange(i as int, i + l));
            assert(separator@.take(l as int) =~= separator@);
        }
        if matches_here {
            proof {
                assert(suffix.take(l as int) == separator@);
                assert(suffix.skip(l as int) =~= name@.skip(i + l));
            }
            i = i + l;
            field_start = i;
            found = true;
        } else {
            proof {
                assert(suffix.take(l as int) != separator@);
                assert(suffix.drop_first() =~= name@.skip(i + 1));
            }
            i = i + 1;
        }
    }
    proof {
        assert(name@.skip(i as int).len() < l);
        assert(spec_after_last_sep(name@.skip(i as int), separator@) is None);
    }
    if found {
        let mut out: Vec<u8> = Vec::new();
        let mut j: usize = field_start;
        while j < n
            invariant
                n == name@.len(),
                field_start <= j <= n,
                out@ =~= name@.subrange(field_start as int, j as int),
            decreases n - j,
        {
            proof {
                assert(name@.subrange(field_start as int, j + 1)
                    =~= name@.subrange(field_start as int, j as int).push(name@[j as int]));
            }
            out.push(name[j]);
            j = j + 1;
        }
        proof {
            assert(name@.subrange(field_start as int, n as int) =~= name@.skip(field_start as int));
        }
        Ok(out)
    } else {
        Err(UmiError::MalformedIdentifier)
    }
}

} // verus!
