//! The laws the truncation engine obeys, proved once and for all inputs.
//!
//! Each public proof function here states one guarantee of `trunc_spec` (and
//! so, through its contract, of `trunc_path`): names that fit are left
//! alone, truncated valid names stay valid prefixes, the stem cut never
//! splits a character, extensions survive byte for byte, nothing but the
//! name is touched, and the operation is idempotent.

use vstd::prelude::*;

use crate::name::{
    DOT, SLASH, name_start, path_name, has_name, last_dot, has_ext, ext_of,
    lemma_name_start_props, lemma_name_start_take, lemma_name_start_append,
    lemma_last_dot_props, lemma_last_dot_le, lemma_last_dot_append,
};
use crate::trunc::{new_name_len, stem_budget, trunc_spec};
use crate::utf8::{is_utf8, lemma_valid_up_to_ge, lemma_valid_up_to_le, lemma_prefix_valid};

verus! {

/// A cut under a budget keeps between zero and `budget` bytes.
proof fn lemma_nnl_bounds(name: Seq<u8>, budget: int)
    requires
        0 <= budget <= name.len(),
    ensures
        0 <= new_name_len(name, budget) <= budget,
{
    if is_utf8(name) {
        let t = name.take(budget);
        lemma_valid_up_to_ge(t, 0);
        lemma_valid_up_to_le(t, 0);
    }
}

/// Shape of the result when the name carries no extension: the whole path is
/// cut at `name_start + new_name_len`, so the new name is the corresponding
/// prefix of the old one.
proof fn lemma_no_ext_shape(p: Seq<u8>, limit: int)
    requires
        has_name(p),
        0 <= limit,
        path_name(p).len() > limit,
        !has_ext(path_name(p)),
    ensures
        ({
            let name = path_name(p);
            let nfl = new_name_len(name, limit);
            &&& 0 <= nfl <= limit
            &&& trunc_spec(p, limit) == p.take(name_start(p) + nfl)
            &&& name_start(trunc_spec(p, limit)) == name_start(p)
            &&& path_name(trunc_spec(p, limit)) == name.take(nfl)
        }),
{
    let name = path_name(p);
    let ns = name_start(p);
    lemma_name_start_props(p);
    assert(name.len() == p.len() - ns);
    lemma_nnl_bounds(name, limit);
    let nfl = new_name_len(name, limit);
    let r = trunc_spec(p, limit);
    assert(r == p.take(ns + nfl));
    lemma_name_start_take(p, ns + nfl);
    assert(name_start(r) == ns);
    assert forall|t: int| 0 <= t < nfl implies path_name(r)[t] == name.take(nfl)[t] by {
        assert(path_name(r)[t] == r[ns + t]);
        assert(r[ns + t] == p[ns + t]);
        assert(name[t] == p[ns + t]);
    }
    assert(path_name(r) =~= name.take(nfl));
}

/// Shape of the result when the name carries an extension: the stem is cut
/// within the budget that remains once room for `.ext` is reserved, and the
/// new name is that stem prefix, a dot, and the old extension, whose dot is
/// the name's last.
proof fn lemma_ext_shape(p: Seq<u8>, limit: int)
    requires
        has_name(p),
        0 <= limit,
        path_name(p).len() > limit,
        has_ext(path_name(p)),
    ensures
        ({
            let name = path_name(p);
            let e = ext_of(name);
            let c = new_name_len(name, stem_budget(limit, e.len() as int));
            &&& 0 <= c && c < last_dot(name)
            &&& name.len() == last_dot(name) + 1 + e.len()
            &&& trunc_spec(p, limit) == p.take(name_start(p) + c) + seq![DOT] + e
            &&& name_start(trunc_spec(p, limit)) == name_start(p)
            &&& path_name(trunc_spec(p, limit)) == name.take(c) + seq![DOT] + e
            &&& path_name(trunc_spec(p, limit)).len() == c + 1 + e.len()
            &&& last_dot(path_name(trunc_spec(p, limit))) == c
            &&& (limit >= e.len() + 1 ==> path_name(trunc_spec(p, limit)).len() <= limit)
            &&& (c >= 1 ==> has_ext(path_name(trunc_spec(p, limit))) && ext_of(
                path_name(trunc_spec(p, limit)),
            ) == e)
        }),
{
    let name = path_name(p);
    let ns = name_start(p);
    let ld = last_dot(name);
    let e = ext_of(name);
    let sb = stem_budget(limit, e.len() as int);
    lemma_name_start_props(p);
    lemma_last_dot_props(name);
    assert(name.len() == p.len() - ns);
    assert(e.len() == name.len() - ld - 1);
    assert(sb < ld);
    lemma_nnl_bounds(name, sb);
    let c = new_name_len(name, sb);
    let r = trunc_spec(p, limit);
    assert(r == p.take(ns + c) + seq![DOT] + e);
    let t = seq![DOT] + e;
    assert forall|j: int| 0 <= j < e.len() implies e[j] != SLASH && e[j] != DOT by {
        assert(e[j] == name[ld + 1 + j]);
        assert(name[ld + 1 + j] == p[ns + ld + 1 + j]);
    }
    assert forall|j: int| 0 <= j < t.len() implies t[j] != SLASH by {
        if j == 0 {
            assert(t[j] == DOT);
        } else {
            assert(t[j] == e[j - 1]);
        }
    }
    lemma_name_start_append(p, ns + c, t);
    assert(r =~= p.take(ns + c) + t);
    assert(name_start(r) == ns);
    assert(r.len() == ns + c + 1 + e.len());
    assert(path_name(r).len() == c + 1 + e.len());
    assert forall|u: int| 0 <= u < c + 1 + e.len() implies path_name(r)[u] == (name.take(c)
        + seq![DOT] + e)[u] by {
        assert(path_name(r)[u] == r[ns + u]);
        if u < c {
            assert(r[ns + u] == p[ns + u]);
            assert(name[u] == p[ns + u]);
        } else if u == c {
            assert(r[ns + u] == DOT);
        } else {
            assert(r[ns + u] == e[u - c - 1]);
        }
    }
    assert(path_name(r) =~= name.take(c) + seq![DOT] + e);
    lemma_last_dot_append(name.take(c), e);
    assert(last_dot(path_name(r)) == c);
    if c >= 1 {
        assert(ext_of(path_name(r)) =~= e);
    }
}

/// A path whose final component already fits the limit — or which has no
/// final component to rename — is returned unchanged.
pub proof fn lemma_fits_unchanged(p: Seq<u8>, limit: int)
    requires
        !has_name(p) || path_name(p).len() <= limit,
    ensures
        trunc_spec(p, limit) == p,
{
}

/// Only the name is ever touched: every byte before the final component
/// survives unchanged, the name starts where it started, and it never
/// lengthens.
pub proof fn lemma_only_name_changes(p: Seq<u8>, limit: int)
    requires
        0 <= limit,
    ensures
        ({
            let r = trunc_spec(p, limit);
            &&& name_start(r) == name_start(p)
            &&& r.take(name_start(p)) == p.take(name_start(p))
            &&& path_name(r).len() <= path_name(p).len()
        }),
{
    lemma_name_start_props(p);
    let r = trunc_spec(p, limit);
    if !has_name(p) || path_name(p).len() <= limit {
    } else if has_ext(path_name(p)) {
        lemma_ext_shape(p, limit);
        assert(r.take(name_start(p)) =~= p.take(name_start(p)));
    } else {
        lemma_no_ext_shape(p, limit);
        assert(r.take(name_start(p)) =~= p.take(name_start(p)));
    }
}

/// Truncating a validly encoded name with no extension yields a validly
/// encoded prefix of that name, no longer than the limit, and introduces no
/// extension.
pub proof fn lemma_valid_no_ext(p: Seq<u8>, limit: int)
    requires
        has_name(p),
        0 <= limit,
        path_name(p).len() > limit,
        is_utf8(path_name(p)),
        !has_ext(path_name(p)),
    ensures
        ({
            let name = path_name(p);
            let rn = path_name(trunc_spec(p, limit));
            &&& rn.len() <= limit
            &&& rn == name.take(rn.len() as int)
            &&& is_utf8(rn)
            &&& !has_ext(rn)
        }),
{
    lemma_no_ext_shape(p, limit);
    let name = path_name(p);
    let nfl = new_name_len(name, limit);
    lemma_prefix_valid(name.take(limit));
    assert(name.take(limit).take(nfl) =~= name.take(nfl));
    lemma_last_dot_props(name);
    assert forall|j: int| 1 <= j < name.take(nfl).len() implies name.take(nfl)[j] != DOT by {
        assert(name.take(nfl)[j] == name[j]);
    }
    lemma_last_dot_le(name.take(nfl));
}

/// Truncating a validly encoded name with an extension: the result's name is
/// a validly encoded, non-split prefix of the stem, then a dot, then the
/// extension unchanged; and whenever the limit leaves room for `.ext`, the
/// whole result fits it.
pub proof fn lemma_valid_with_ext(p: Seq<u8>, limit: int)
    requires
        has_name(p),
        0 <= limit,
        path_name(p).len() > limit,
        is_utf8(path_name(p)),
        has_ext(path_name(p)),
    ensures
        ({
            let name = path_name(p);
            let e = ext_of(name);
            let c = new_name_len(name, stem_budget(limit, e.len() as int));
            let rn = path_name(trunc_spec(p, limit));
            &&& rn == name.take(c) + seq![DOT] + e
            &&& is_utf8(name.take(c))
            &&& c < last_dot(name)
            &&& (limit >= e.len() + 1 ==> rn.len() <= limit)
            &&& (c >= 1 ==> has_ext(rn) && ext_of(rn) == e)
        }),
{
    lemma_ext_shape(p, limit);
    let name = path_name(p);
    let sb = stem_budget(limit, ext_of(name).len() as int);
    let c = new_name_len(name, sb);
    lemma_prefix_valid(name.take(sb));
    assert(name.take(sb).take(c) =~= name.take(c));
}

/// The extension's bytes survive truncation, with their dot, at the end of
/// the result's name — whatever the limit.
pub proof fn lemma_ext_bytes_survive(p: Seq<u8>, limit: int)
    requires
        has_name(p),
        0 <= limit,
        has_ext(path_name(p)),
    ensures
        ({
            let e = ext_of(path_name(p));
            let rn = path_name(trunc_spec(p, limit));
            &&& rn.len() >= e.len() + 1
            &&& rn.subrange(rn.len() - e.len() - 1, rn.len() as int) == seq![DOT] + e
        }),
{
    let name = path_name(p);
    let e = ext_of(name);
    let rn = path_name(trunc_spec(p, limit));
    lemma_last_dot_props(name);
    if path_name(p).len() <= limit {
        assert(rn.subrange(rn.len() - e.len() - 1, rn.len() as int) =~= seq![DOT] + e);
    } else {
        lemma_ext_shape(p, limit);
        assert(rn.subrange(rn.len() - e.len() - 1, rn.len() as int) =~= seq![DOT] + e);
    }
}

/// The extension is still parsed as the extension of the result — byte for
/// byte the original — whenever the truncated name keeps at least one byte
/// of stem before it (with no stem byte left, the result starts with its
/// dot, which marks a hidden name instead).
pub proof fn lemma_ext_preserved(p: Seq<u8>, limit: int)
    requires
        has_name(p),
        0 <= limit,
        has_ext(path_name(p)),
        path_name(p).len() > limit ==> new_name_len(
            path_name(p),
            stem_budget(limit, ext_of(path_name(p)).len() as int),
        ) >= 1,
    ensures
        has_ext(path_name(trunc_spec(p, limit))),
        ext_of(path_name(trunc_spec(p, limit))) == ext_of(path_name(p)),
{
    if path_name(p).len() <= limit {
    } else {
        lemma_ext_shape(p, limit);
    }
}

/// Truncation is idempotent: applying it to its own output with the same
/// limit changes nothing further.  The one family of inputs set aside is a
/// non-empty extension that alone exceeds the limit: it is never destroyed,
/// so the output's name still exceeds the limit, and a second pass would cut
/// into what is then a hidden name.
pub proof fn lemma_idempotent(p: Seq<u8>, limit: int)
    requires
        0 <= limit,
        (has_name(p) && path_name(p).len() > limit && has_ext(path_name(p))) ==> (ext_of(
            path_name(p),
        ).len() + 1 <= limit || ext_of(path_name(p)).len() == 0),
    ensures
        trunc_spec(trunc_spec(p, limit), limit) == trunc_spec(p, limit),
{
    if !has_name(p) || path_name(p).len() <= limit {
    } else if has_ext(path_name(p)) {
        lemma_ext_shape(p, limit);
        let name = path_name(p);
        let e = ext_of(name);
        let rn = path_name(trunc_spec(p, limit));
        if e.len() + 1 <= limit {
            assert(rn.len() <= limit);
        } else {
            let c = new_name_len(name, stem_budget(limit, e.len() as int));
            assert(stem_budget(limit, e.len() as int) == 0);
            lemma_nnl_bounds(name, 0);
            assert(c == 0);
            assert(rn =~= seq![DOT]);
            assert(!has_name(trunc_spec(p, limit)));
        }
    } else {
        lemma_no_ext_shape(p, limit);
        let name = path_name(p);
        let nfl = new_name_len(name, limit);
        assert(name.take(nfl).len() == nfl);
    }
}

} // verus!
