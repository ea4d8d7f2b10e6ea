//! Splitting a raw path into directory part, name, and extension.
//!
//! A path is a sequence of bytes; its *name* is everything after the last
//! directory separator.  A path whose final component is empty, `.` or `..`
//! has no name to truncate.  The *extension* is what follows the last dot of
//! the name, provided that dot is not the name's first byte.

use vstd::prelude::*;

verus! {

pub const DOT: u8 = 0x2E;

pub const SLASH: u8 = 0x2F;

/// Index of the first byte of the final component: just after the last
/// separator, or 0 when the path has no separator.
pub open spec fn name_start(p: Seq<u8>) -> int
    decreases p.len(),
{
    if p.len() == 0 {
        0
    } else if p[p.len() - 1] == SLASH {
        p.len() as int
    } else {
        name_start(p.drop_last())
    }
}

/// The final component of `p`: everything after the last separator.
pub open spec fn path_name(p: Seq<u8>) -> Seq<u8> {
    p.subrange(name_start(p), p.len() as int)
}

/// Does `p` end in a component that can be renamed?  An empty final
/// component (a root or a trailing separator), `.` and `..` cannot.
pub open spec fn has_name(p: Seq<u8>) -> bool {
    let n = path_name(p);
    n.len() > 0 && n != seq![DOT] && n != seq![DOT, DOT]
}

/// Index of the last dot of `name`, or -1 when it has none.
pub open spec fn last_dot(name: Seq<u8>) -> int
    decreases name.len(),
{
    if name.len() == 0 {
        -1
    } else if name[name.len() - 1] == DOT {
        name.len() - 1
    } else {
        last_dot(name.drop_last())
    }
}

/// Does `name` carry an extension?  It must have a dot, and the dot must not
/// be the first byte (a leading dot marks a hidden name, not an extension).
pub open spec fn has_ext(name: Seq<u8>) -> bool {
    last_dot(name) >= 1
}

/// The extension of `name`: the bytes after its last dot.
pub open spec fn ext_of(name: Seq<u8>) -> Seq<u8> {
    name.subrange(last_dot(name) + 1, name.len() as int)
}

/// Where the name starts, what stands before it, and that no separator
/// stands inside it.
pub proof fn lemma_name_start_props(p: Seq<u8>)
    ensures
        0 <= name_start(p) <= p.len(),
        name_start(p) > 0 ==> p[name_start(p) - 1] == SLASH,
        forall|j: int| name_start(p) <= j < p.len() ==> p[j] != SLASH,
    decreases p.len(),
{
    if p.len() == 0 {
    } else if p[p.len() - 1] == SLASH {
    } else {
        lemma_name_start_props(p.drop_last());
        assert forall|j: int| name_start(p) <= j < p.len() implies p[j] != SLASH by {
            if j < p.len() - 1 {
                assert(p.drop_last()[j] == p[j]);
            }
        }
    }
}

/// Cutting a path anywhere inside its name leaves the name's starting point
/// where it was.
pub proof fn lemma_name_start_take(p: Seq<u8>, k: int)
    requires
        name_start(p) <= k <= p.len(),
    ensures
        name_start(p.take(k)) == name_start(p),
    decreases p.len(),
{
    lemma_name_start_props(p);
    if k == p.len() {
        assert(p.take(k) =~= p);
    } else {
        assert(p[p.len() - 1] != SLASH);
        assert forall|j: int| 0 <= j < k implies p.take(k)[j] == p.drop_last().take(k)[j] by {
            assert(p.drop_last().take(k)[j] == p.drop_last()[j]);
            assert(p.drop_last()[j] == p[j]);
        }
        assert(p.take(k) =~= p.drop_last().take(k));
        lemma_name_start_take(p.drop_last(), k);
    }
}

/// Appending separator-free bytes to a path cut inside its name leaves the
/// name's starting point where it was.
pub proof fn lemma_name_start_append(p: Seq<u8>, k: int, t: Seq<u8>)
    requires
        name_start(p) <= k <= p.len(),
        forall|j: int| 0 <= j < t.len() ==> t[j] != SLASH,
    ensures
        name_start(p.take(k) + t) == name_start(p),
    decreases t.len(),
{
    if t.len() == 0 {
        assert(p.take(k) + t =~= p.take(k));
        lemma_name_start_take(p, k);
    } else {
        let r = p.take(k) + t;
        assert(r[r.len() - 1] == t[t.len() - 1]);
        assert(r.drop_last() =~= p.take(k) + t.drop_last());
        lemma_name_start_append(p, k, t.drop_last());
    }
}

/// Where the last dot lies, what stands at it, and that no dot follows it.
pub proof fn lemma_last_dot_props(name: Seq<u8>)
    ensures
        -1 <= last_dot(name) < name.len(),
        last_dot(name) >= 0 ==> name[last_dot(name)] == DOT,
        forall|j: int| last_dot(name) < j < name.len() ==> name[j] != DOT,
    decreases name.len(),
{
    if name.len() == 0 {
    } else if name[name.len() - 1] == DOT {
    } else {
        lemma_last_dot_props(name.drop_last());
        assert forall|j: int| last_dot(name) < j < name.len() implies name[j] != DOT by {
            if j < name.len() - 1 {
                assert(name.drop_last()[j] == name[j]);
            }
        }
    }
}

/// A name whose dots all sit at the front (if anywhere) keeps them there
/// however it is cut: no extension appears.
pub proof fn lemma_last_dot_le(name: Seq<u8>)
    requires
        forall|j: int| 1 <= j < name.len() ==> name[j] != DOT,
    ensures
        last_dot(name) <= 0,
    decreases name.len(),
{
    if name.len() == 0 {
    } else if name[name.len() - 1] == DOT {
        assert(name.len() == 1);
    } else {
        assert forall|j: int| 1 <= j < name.drop_last().len() implies name.drop_last()[j] != DOT by {
            assert(name.drop_last()[j] == name[j]);
        }
        lemma_last_dot_le(name.drop_last());
    }
}

/// The last dot of `stem ++ "." ++ ext` is the appended one, whenever `ext`
/// itself is dot-free.
pub proof fn lemma_last_dot_append(x: Seq<u8>, e: Seq<u8>)
    requires
        forall|j: int| 0 <= j < e.len() ==> e[j] != DOT,
    ensures
        last_dot(x + seq![DOT] + e) == x.len(),
    decreases e.len(),
{
    let r = x + seq![DOT] + e;
    if e.len() == 0 {
        assert(r[r.len() - 1] == DOT);
        assert(r.len() - 1 == x.len());
    } else {
        assert(r[r.len() - 1] == e[e.len() - 1]);
        assert(r.drop_last() =~= x + seq![DOT] + e.drop_last());
        lemma_last_dot_append(x, e.drop_last());
    }
}

/// Index of the first byte of the final component of `p`, by one backward
/// scan for the last separator.
pub fn find_name_start(p: &Vec<u8>) -> (r: usize)
    ensures
        r as int == name_start(p@),
        r <= p.len(),
{
    proof {
        assert(p@.take(p@.len() as int) =~= p@);
        lemma_name_start_props(p@);
    }
    let mut i: usize = p.len();
    while i > 0
        invariant
            i <= p@.len(),
            name_start(p@) == name_start(p@.take(i as int)),
            name_start(p@) <= p@.len(),
        decreases i,
    {
        if p[i - 1] == SLASH {
            assert(p@.take(i as int)[i - 1] == p@[i - 1]);
            return i;
        }
        assert(p@.take(i as int).drop_last() =~= p@.take(i as int - 1));
        assert(p@.take(i as int)[i - 1] == p@[i - 1]);
        i = i - 1;
    }
    assert(p@.take(0) =~= Seq::<u8>::empty());
    0
}

/// Index of the last dot of `name`, or `None`, by one backward scan.
pub fn find_last_dot(name: &Vec<u8>) -> (r: Option<usize>)
    ensures
        match r {
            Some(d) => last_dot(name@) == d as int && d < name.len(),
            None => last_dot(name@) == -1,
        },
{
    proof {
        assert(name@.take(name@.len() as int) =~= name@);
        lemma_last_dot_props(name@);
    }
    let mut i: usize = name.len();
    while i > 0
        invariant
            i <= name@.len(),
            last_dot(name@) == last_dot(name@.take(i as int)),
            last_dot(name@) < name@.len(),
        decreases i,
    {
        if name[i - 1] == DOT {
            assert(name@.take(i as int)[i - 1] == name@[i - 1]);
            return Some(i - 1);
        }
        assert(name@.take(i as int).drop_last() =~= name@.take(i as int - 1));
        assert(name@.take(i as int)[i - 1] == name@[i - 1]);
        i = i - 1;
    }
    assert(name@.take(0) =~= Seq::<u8>::empty());
    None
}

/// A fresh copy of the bytes of `v` from `from` (inclusive) to `to`
/// (exclusive).
pub fn subvec(v: &Vec<u8>, from: usize, to: usize) -> (r: Vec<u8>)
    requires
        from <= to,
        to <= v@.len(),
    ensures
        r@ == v@.subrange(from as int, to as int),
{
    let mut r: Vec<u8> = Vec::new();
    let mut i: usize = from;
    while i < to
        invariant
            from <= i <= to,
            to <= v@.len(),
            r@ == v@.subrange(from as int, i as int),
        decreases to - i,
    {
        r.push(v[i]);
        proof {
            assert(v@.subrange(from as int, i as int).push(v@[i as int]) =~= v@.subrange(
                from as int,
                i as int + 1,
            ));
        }
        i = i + 1;
    }
    r
}

} // verus!
