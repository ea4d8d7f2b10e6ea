//! The truncation engine: cut a path's final component down to a byte
//! budget, keeping the encoding intact and the extension in place.
//!
//! Given a path and a limit, the engine returns the path unchanged when its
//! name already fits (or when there is no name), and otherwise rebuilds the
//! path with the name cut down.  When the name carries an extension, the
//! space for `.ext` is reserved out of the budget first (saturating at
//! zero), and only the stem is cut; the extension is re-appended unchanged.
//! When the whole name is valid UTF-8 the cut is snapped back to the last
//! character boundary within its budget; when it is not, the cut is taken
//! raw.  Only the name is ever touched: every byte before it survives.  An
//! extension is never destroyed to satisfy the limit, even when it alone
//! exceeds it.

use vstd::prelude::*;

use crate::name::{
    DOT, name_start, path_name, has_name, has_ext, ext_of, lemma_name_start_props,
    find_name_start, find_last_dot, subvec,
};
use crate::utf8::{
    is_utf8, valid_up_to, valid_up_to_exec, lemma_valid_up_to_ge, lemma_valid_up_to_le,
};

verus! {

/// Returned when the engine's own length accounting would slice out of
/// bounds.  The bounds check below converts such a defect into an error
/// instead of an out-of-bounds read; the contract proves it never fires.
#[derive(Debug, Clone, Copy, PartialEq, Eq, Structural)]
pub enum TruncError {
    SliceOutOfBounds,
}

/// The byte budget left for the stem once room for `.ext` (an extension of
/// `elen` bytes plus its dot) is reserved out of `limit`, saturating at
/// zero: an extension is never destroyed to satisfy the limit.
pub open spec fn stem_budget(limit: int, elen: int) -> int {
    if limit >= elen + 1 {
        limit - elen - 1
    } else {
        0
    }
}

/// How many bytes of `name` a cut under `budget` keeps: the largest cleanly
/// decoding prefix of the first `budget` bytes when the whole name is valid
/// UTF-8, and exactly `budget` bytes when it is not.
pub open spec fn new_name_len(name: Seq<u8>, budget: int) -> int {
    if is_utf8(name) {
        valid_up_to(name.take(budget))
    } else {
        budget
    }
}

/// What truncation produces.  A path without a name, or whose name already
/// fits, is left unchanged.  Otherwise only the name is rebuilt, in place:
/// with an extension, the stem is cut to the budget that remains once room
/// for `.ext` is reserved, and the extension is appended back unchanged;
/// without one, the name is cut to the limit.  Either cut is snapped to a
/// character boundary when the name is valid UTF-8.
pub open spec fn trunc_spec(p: Seq<u8>, limit: int) -> Seq<u8> {
    if !has_name(p) || path_name(p).len() <= limit {
        p
    } else {
        let name = path_name(p);
        let ns = name_start(p);
        if has_ext(name) {
            let e = ext_of(name);
            let c = new_name_len(name, stem_budget(limit, e.len() as int));
            p.take(ns + c) + seq![DOT] + e
        } else {
            p.take(ns + new_name_len(name, limit))
        }
    }
}

/// How many bytes of `name` to keep under `budget`, mirroring
/// `new_name_len`: snapped to the last character boundary within the budget
/// when the whole name decodes cleanly, the raw budget otherwise.
fn cut_name(name: &Vec<u8>, budget: usize) -> (r: usize)
    requires
        budget <= name@.len(),
    ensures
        r as int == new_name_len(name@, budget as int),
        r <= budget,
{
    let v_all = valid_up_to_exec(name);
    if v_all == name.len() {
        let cutv = subvec(name, 0, budget);
        proof {
            assert(cutv@ =~= name@.take(budget as int));
            lemma_valid_up_to_le(cutv@, 0);
            lemma_valid_up_to_ge(cutv@, 0);
        }
        valid_up_to_exec(&cutv)
    } else {
        proof {
            lemma_valid_up_to_le(name@, 0);
            lemma_valid_up_to_ge(name@, 0);
            assert(!is_utf8(name@));
        }
        budget
    }
}

/// Compute the truncated form of `path` under the byte budget `max_len`.
///
/// The engine performs no I/O: it maps the raw bytes of a path to the raw
/// bytes of the renamed path, exactly as `trunc_spec` describes.  The error
/// arm exists only as a defensive bounds check and is proven unreachable.
pub fn trunc_path(path: &Vec<u8>, max_len: usize) -> (res: Result<Vec<u8>, TruncError>)
    ensures
        res is Ok,
        res matches Ok(q) ==> q@ == trunc_spec(path@, max_len as int),
{
    let ns = find_name_start(path);
    let name_len = path.len() - ns;
    let no_name = name_len == 0 || (name_len == 1 && path[ns] == DOT) || (name_len == 2
        && path[ns] == DOT && path[ns + 1] == DOT);
    proof {
        lemma_name_start_props(path@);
        assert(path_name(path@).len() == name_len);
        if name_len == 1 {
            assert(path_name(path@)[0] == path@[ns as int]);
            if path@[ns as int] == DOT {
                assert(path_name(path@) =~= seq![DOT]);
            }
        }
        if name_len == 2 {
            assert(path_name(path@)[0] == path@[ns as int]);
            assert(path_name(path@)[1] == path@[ns as int + 1]);
            if path@[ns as int] == DOT && path@[ns as int + 1] == DOT {
                assert(path_name(path@) =~= seq![DOT, DOT]);
            }
        }
        assert(no_name <==> !has_name(path@));
    }
    if no_name || name_len <= max_len {
        let same = subvec(path, 0, path.len());
        proof {
            assert(same@ =~= path@);
        }
        return Ok(same);
    }
    let name = subvec(path, ns, path.len());
    proof {
        assert(name@ =~= path_name(path@));
    }
    let dot = find_last_dot(&name);
    let d: usize = match dot {
        Some(d) if d >= 1 => d,
        _ => {
            proof {
                assert(!has_ext(path_name(path@)));
            }
            let c = cut_name(&name, max_len);
            if ns > path.len() - c {
                return Err(TruncError::SliceOutOfBounds);
            }
            let out = subvec(path, 0, ns + c);
            proof {
                assert(out@ =~= trunc_spec(path@, max_len as int));
            }
            return Ok(out);
        },
    };
    let ext_len = name.len() - d - 1;
    let budget: usize = if max_len >= ext_len + 1 {
        max_len - (ext_len + 1)
    } else {
        0
    };
    proof {
        assert(budget as int == stem_budget(max_len as int, ext_len as int));
        assert(budget <= d);
    }
    let c = cut_name(&name, budget);
    if ns > path.len() - c {
        return Err(TruncError::SliceOutOfBounds);
    }
    let keep = ns + c;
    let mut out = subvec(path, 0, keep);
    out.push(DOT);
    proof {
        assert(out@ =~= path@.subrange(0, keep as int) + seq![DOT] + name@.subrange(
            d as int + 1,
            d as int + 1,
        ));
    }
    let mut j = d + 1;
    while j < name.len()
        invariant
            d as int + 1 <= j <= name@.len(),
            d < name@.len(),
            keep <= path@.len(),
            out@ == path@.subrange(0, keep as int) + seq![DOT] + name@.subrange(
                d as int + 1,
                j as int,
            ),
        decreases name@.len() - j,
    {
        out.push(name[j]);
        proof {
            assert(name@.subrange(d as int + 1, j as int).push(name@[j as int]) =~= name@.subrange(
                d as int + 1,
                j as int + 1,
            ));
            assert((path@.subrange(0, keep as int) + seq![DOT] + name@.subrange(
                d as int + 1,
                j as int,
            )).push(name@[j as int]) =~= path@.subrange(0, keep as int) + seq![DOT]
                + name@.subrange(d as int + 1, j as int + 1));
        }
        j = j + 1;
    }
    proof {
        assert(has_ext(path_name(path@)));
        assert(ext_of(path_name(path@)) =~= name@.subrange(d as int + 1, name@.len() as int));
        assert(path@.take(keep as int) =~= path@.subrange(0, keep as int));
        assert(out@ =~= trunc_spec(path@, max_len as int));
    }
    Ok(out)
}

} // verus!
