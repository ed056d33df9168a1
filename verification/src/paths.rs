//! A byte-level model of file-system paths, deep enough to set and strip
//! extensions: components are separated by slashes, and a file name may end
//! in a dot-separated extension.

use vstd::prelude::*;

use crate::RuntimeErrors;

verus! {

/// The byte that separates directory components of a path.
pub const SLASH: u8 = 47;

/// The byte that separates a file name's stem from its extension.
pub const DOT: u8 = 46;

/// Index of the first byte of the file-name component of `p`: the position
/// right after the last slash, or 0 when `p` holds no slash.
pub open spec fn file_name_start(p: Seq<u8>) -> int
    decreases p.len(),
{
    if p.len() == 0 {
        0
    } else if p[p.len() - 1] == SLASH {
        p.len() as int
    } else {
        file_name_start(p.take(p.len() - 1))
    }
}

/// The file-name component of `p`: everything after the last slash.
pub open spec fn file_name(p: Seq<u8>) -> Seq<u8> {
    p.subrange(file_name_start(p), p.len() as int)
}

/// Whether `p` ends in a real file name: a non-empty component that is
/// neither the current-directory nor the parent-directory marker.
pub open spec fn has_file_name(p: Seq<u8>) -> bool {
    &&& file_name(p).len() > 0
    &&& file_name(p) != seq![DOT]
    &&& file_name(p) != seq![DOT, DOT]
}

/// Index of the last dot in a file name, or -1 when it holds none.
pub open spec fn last_dot(name: Seq<u8>) -> int
    decreases name.len(),
{
    if name.len() == 0 {
        -1
    } else if name[name.len() - 1] == DOT {
        name.len() - 1
    } else {
        last_dot(name.take(name.len() - 1))
    }
}

/// Whether a file name carries an extension: it has a dot after its first
/// byte (a leading dot alone marks a hidden file, not an extension).
pub open spec fn name_has_ext(name: Seq<u8>) -> bool {
    last_dot(name) > 0
}

/// The stem of a file name: what precedes the last dot, or the whole name
/// when it carries no extension.
pub open spec fn name_stem(name: Seq<u8>) -> Seq<u8> {
    if name_has_ext(name) {
        name.take(last_dot(name))
    } else {
        name
    }
}

/// The extension of a file name, without its dot; empty when there is none.
pub open spec fn name_ext(name: Seq<u8>) -> Seq<u8> {
    if name_has_ext(name) {
        name.subrange(last_dot(name) + 1, name.len() as int)
    } else {
        Seq::empty()
    }
}

/// Index right after the stem of the file name of `p`, within `p`.
pub open spec fn stem_end(p: Seq<u8>) -> int {
    file_name_start(p) + name_stem(file_name(p)).len()
}

/// `p` with its extension replaced by `e`, or removed when `e` is empty:
/// the directory part and the stem stay, the old extension goes.
pub open spec fn with_ext(p: Seq<u8>, e: Seq<u8>) -> Seq<u8> {
    if e.len() == 0 {
        p.take(stem_end(p))
    } else {
        p.take(stem_end(p)) + seq![DOT] + e
    }
}

/// `p` with its extension removed.
pub open spec fn stripped(p: Seq<u8>) -> Seq<u8> {
    p.take(stem_end(p))
}

pub proof fn lemma_file_name_start_bounds(p: Seq<u8>)
    ensures
        0 <= file_name_start(p) <= p.len(),
    decreases p.len(),
{
    if p.len() > 0 && p[p.len() - 1] != SLASH {
        lemma_file_name_start_bounds(p.take(p.len() - 1));
    }
}

pub proof fn lemma_file_name_no_slash(p: Seq<u8>, j: int)
    requires
        file_name_start(p) <= j < p.len(),
    ensures
        p[j] != SLASH,
    decreases p.len(),
{
    lemma_file_name_start_bounds(p);
    if p[p.len() - 1] == SLASH {
        // then file_name_start(p) == p.len() and no such j exists
    } else if j < p.len() - 1 {
        lemma_file_name_start_bounds(p.take(p.len() - 1));
        lemma_file_name_no_slash(p.take(p.len() - 1), j);
    }
}

pub proof fn lemma_slash_before_file_name(p: Seq<u8>)
    ensures
        file_name_start(p) > 0 ==> p[file_name_start(p) - 1] == SLASH,
    decreases p.len(),
{
    if p.len() > 0 && p[p.len() - 1] != SLASH {
        lemma_file_name_start_bounds(p.take(p.len() - 1));
        lemma_slash_before_file_name(p.take(p.len() - 1));
    }
}

pub proof fn lemma_last_dot_bounds(name: Seq<u8>)
    ensures
        -1 <= last_dot(name) < name.len(),
        last_dot(name) >= 0 ==> name[last_dot(name)] == DOT,
    decreases name.len(),
{
    if name.len() > 0 && name[name.len() - 1] != DOT {
        lemma_last_dot_bounds(name.take(name.len() - 1));
    }
}

/// Appending bytes that hold no slash does not move the file-name start.
pub proof fn lemma_file_name_start_append(a: Seq<u8>, b: Seq<u8>)
    requires
        forall|j: int| 0 <= j < b.len() ==> b[j] != SLASH,
    ensures
        file_name_start(a + b) == file_name_start(a),
    decreases b.len(),
{
    if b.len() == 0 {
        assert(a + b =~= a);
    } else {
        let ab = a + b;
        assert(ab[ab.len() - 1] == b[b.len() - 1]);
        assert(ab.take(ab.len() - 1) =~= a + b.take(b.len() - 1));
        lemma_file_name_start_append(a, b.take(b.len() - 1));
    }
}

/// Appending bytes that hold no dot does not move the last dot.
pub proof fn lemma_last_dot_append(a: Seq<u8>, b: Seq<u8>)
    requires
        forall|j: int| 0 <= j < b.len() ==> b[j] != DOT,
    ensures
        last_dot(a + b) == last_dot(a),
    decreases b.len(),
{
    if b.len() == 0 {
        assert(a + b =~= a);
    } else {
        let ab = a + b;
        assert(ab[ab.len() - 1] == b[b.len() - 1]);
        assert(ab.take(ab.len() - 1) =~= a + b.take(b.len() - 1));
        lemma_last_dot_append(a, b.take(b.len() - 1));
    }
}

/// The stem of a non-empty file name is non-empty.
pub proof fn lemma_stem_nonempty(name: Seq<u8>)
    requires
        name.len() > 0,
    ensures
        name_stem(name).len() > 0,
{
    lemma_last_dot_bounds(name);
}

/// Stripping keeps the directory part and the stem: the result is the
/// directory prefix followed by the stem, its file name is exactly the stem,
/// and the stem's bytes are untouched.
pub proof fn lemma_strip_structure(p: Seq<u8>)
    requires
        has_file_name(p),
    ensures
        stripped(p) == p.take(file_name_start(p)) + name_stem(file_name(p)),
        file_name_start(stripped(p)) == file_name_start(p),
        file_name(stripped(p)) == name_stem(file_name(p)),
{
    let s = file_name_start(p);
    let name = file_name(p);
    let stem = name_stem(name);
    lemma_file_name_start_bounds(p);
    lemma_last_dot_bounds(name);
    assert(stem.len() <= name.len());
    assert(stripped(p) =~= p.take(s) + stem);
    assert forall|j: int| 0 <= j < stem.len() implies stem[j] != SLASH by {
        assert(stem[j] == p[s + j]);
        lemma_file_name_no_slash(p, s + j);
    }
    lemma_file_name_start_append(p.take(s), stem);
    assert(file_name_start(p.take(s)) == s) by {
        if s > 0 {
            lemma_slash_before_file_name(p);
            assert(p.take(s)[s - 1] == SLASH);
        }
    }
    assert(file_name(stripped(p)) =~= stem);
}

/// A path whose file name carries no extension strips to itself: the
/// rename is the identity.
pub proof fn lemma_strip_no_ext_identity(p: Seq<u8>)
    requires
        !name_has_ext(file_name(p)),
    ensures
        stripped(p) == p,
{
    lemma_file_name_start_bounds(p);
    assert(stripped(p) =~= p);
}

/// Stripping is idempotent on every path whose stem carries no further
/// extension and is itself a real file name: the second strip is the
/// identity.
pub proof fn lemma_strip_idempotent(p: Seq<u8>)
    requires
        has_file_name(p),
        !name_has_ext(name_stem(file_name(p))),
        name_stem(file_name(p)) != seq![DOT],
        name_stem(file_name(p)) != seq![DOT, DOT],
    ensures
        has_file_name(stripped(p)),
        stripped(stripped(p)) == stripped(p),
{
    let q = stripped(p);
    let stem = name_stem(file_name(p));
    lemma_strip_structure(p);
    lemma_stem_nonempty(file_name(p));
    assert(file_name(q) == stem);
    assert(stem_end(q) == file_name_start(q) + stem.len());
    assert(q.len() == file_name_start(p) + stem.len()) by {
        lemma_file_name_start_bounds(p);
        lemma_last_dot_bounds(file_name(p));
    }
    assert(stripped(q) =~= q);
}

/// Setting a plain extension (non-empty, free of slashes and dots) is
/// idempotent: the renamed file keeps a real file name whose extension is
/// exactly `e`, and setting `e` again yields the same path.
pub proof fn lemma_with_ext_idempotent(p: Seq<u8>, e: Seq<u8>)
    requires
        has_file_name(p),
        e.len() > 0,
        forall|j: int| 0 <= j < e.len() ==> e[j] != SLASH,
        forall|j: int| 0 <= j < e.len() ==> e[j] != DOT,
    ensures
        has_file_name(with_ext(p, e)),
        name_ext(file_name(with_ext(p, e))) == e,
        with_ext(with_ext(p, e), e) == with_ext(p, e),
{
    let s = file_name_start(p);
    let name = file_name(p);
    let stem = name_stem(name);
    let q = with_ext(p, e);
    lemma_file_name_start_bounds(p);
    lemma_last_dot_bounds(name);
    lemma_stem_nonempty(name);
    lemma_strip_structure(p);
    assert(q =~= stripped(p) + (seq![DOT] + e));
    assert forall|j: int| 0 <= j < (seq![DOT] + e).len() implies (seq![DOT] + e)[j] != SLASH by {
        if j > 0 {
            assert((seq![DOT] + e)[j] == e[j - 1]);
        }
    }
    lemma_file_name_start_append(stripped(p), seq![DOT] + e);
    assert(file_name_start(q) == s);
    let qname = file_name(q);
    assert(qname =~= stem + seq![DOT] + e);
    assert(last_dot(qname) == stem.len()) by {
        assert(qname =~= (stem + seq![DOT]) + e);
        lemma_last_dot_append(stem + seq![DOT], e);
        assert((stem + seq![DOT])[stem.len() as int] == DOT);
    }
    assert(name_has_ext(qname));
    assert(name_stem(qname) =~= stem);
    assert(name_ext(qname) =~= e);
    assert(qname.len() >= 3);
    assert(qname != seq![DOT] && qname != seq![DOT, DOT]);
    assert(stem_end(q) == s + stem.len());
    assert(q.take(stem_end(q)) =~= stripped(p));
    assert(with_ext(q, e) =~= q);
}

/// Finds where the file-name component of `p` begins.
pub fn find_file_name_start(p: &Vec<u8>) -> (r: usize)
    ensures
        r == file_name_start(p@),
        r <= p.len(),
{
    let mut i: usize = p.len();
    proof {
        assert(p@.take(p@.len() as int) =~= p@);
    }
    loop
        invariant
            i <= p.len(),
            file_name_start(p@) == file_name_start(p@.take(i as int)),
        decreases i,
    {
        if i == 0 {
            return 0;
        }
        if p[i - 1] == SLASH {
            proof {
                assert(p@.take(i as int)[i - 1] == SLASH);
            }
            return i;
        }
        proof {
            assert(p@.take(i as int).take(i - 1) =~= p@.take(i - 1));
        }
        i = i - 1;
    }
}

/// Finds where the stem of the file name of `p` ends, given where the file
/// name begins.
pub fn find_stem_end(p: &Vec<u8>, start: usize) -> (r: usize)
    requires
        start == file_name_start(p@),
        start <= p@.len(),
    ensures
        r == stem_end(p@),
        start <= r <= p.len(),
{
    let ghost name = file_name(p@);
    let mut i: usize = p.len();
    proof {
        assert(name.take(name.len() as int) =~= name);
        lemma_last_dot_bounds(name);
    }
    loop
        invariant
            start <= i <= p.len(),
            start == file_name_start(p@),
            name == file_name(p@),
            last_dot(name) == last_dot(name.take(i - start)),
        decreases i,
    {
        if i == start {
            proof {
                assert(name.take(0).len() == 0);
                assert(!name_has_ext(name));
            }
            return p.len();
        }
        if p[i - 1] == DOT {
            proof {
                assert(name.take(i - start)[i - 1 - start] == p@[i - 1]);
                assert(last_dot(name) == i - 1 - start);
            }
            if i - 1 > start {
                proof {
                    assert(name_has_ext(name));
                    assert(stem_end(p@) == start + (i - 1 - start));
                }
                return i - 1;
            } else {
                proof {
                    assert(!name_has_ext(name));
                }
                return p.len();
            }
        }
        proof {
            assert(name.take(i - start)[i - 1 - start] == p@[i - 1]);
            assert(name.take(i - start).take(i - 1 - start) =~= name.take(i - 1 - start));
        }
        i = i - 1;
    }
}

/// Replaces the extension of `path` with `ext` (or removes it when `ext` is
/// empty), or reports that the path has no file name to work on.
pub fn set_extension(path: &Vec<u8>, ext: &Vec<u8>) -> (r: Result<Vec<u8>, RuntimeErrors>)
    ensures
        has_file_name(path@) ==> (r matches Ok(q) && q@ == with_ext(path@, ext@)),
        !has_file_name(path@) ==> r == Err::<Vec<u8>, RuntimeErrors>(
            RuntimeErrors::UnableToSetExtension,
        ),
{
    let start = find_file_name_start(path);
    let n = path.len();
    proof {
        assert(file_name(path@).len() == n - start);
    }
    if start == n {
        return Err(RuntimeErrors::UnableToSetExtension);
    }
    if n - start == 1 && path[start] == DOT {
        proof {
            assert(file_name(path@) =~= seq![DOT]);
        }
        return Err(RuntimeErrors::UnableToSetExtension);
    }
    if n - start == 2 && path[start] == DOT && path[start + 1] == DOT {
        proof {
            assert(file_name(path@) =~= seq![DOT, DOT]);
        }
        return Err(RuntimeErrors::UnableToSetExtension);
    }
    proof {
        let name = file_name(path@);
        assert(name[0] == path@[start as int]);
        if name == seq![DOT] {
            assert(name.len() == 1 && name[0] == DOT);
        }
        if name == seq![DOT, DOT] {
            assert(name.len() == 2 && name[0] == DOT && name[1] == DOT);
            assert(name[1] == path@[start + 1]);
        }
        assert(has_file_name(path@));
    }
    let se = find_stem_end(path, start);
    let mut out: Vec<u8> = Vec::new();
    let mut j: usize = 0;
    proof {
        assert(out@ =~= path@.take(0));
    }
    while j < se
        invariant
            j <= se <= path.len(),
            out@ == path@.take(j as int),
        decreases se - j,
    {
        out.push(path[j]);
        proof {
            assert(path@.take(j + 1) =~= path@.take(j as int).push(path@[j as int]));
        }
        j = j + 1;
    }
    if ext.len() > 0 {
        out.push(DOT);
        proof {
            assert(out@ =~= path@.take(se as int) + seq![DOT] + ext@.take(0));
        }
        let mut k: usize = 0;
        while k < ext.len()
            invariant
                k <= ext.len(),
                se == stem_end(path@),
                se <= path.len(),
                out@ == path@.take(se as int) + seq![DOT] + ext@.take(k as int),
            decreases ext.len() - k,
        {
            out.push(ext[k]);
            proof {
                assert(path@.take(se as int) + seq![DOT] + ext@.take(k + 1) =~= (path@.take(
                    se as int,
                ) + seq![DOT] + ext@.take(k as int)).push(ext@[k as int]));
            }
            k = k + 1;
        }
        proof {
            assert(ext@.take(ext@.len() as int) =~= ext@);
            assert(out@ == with_ext(path@, ext@));
        }
    } else {
        proof {
            assert(out@ == with_ext(path@, ext@));
        }
    }
    Ok(out)
}

} // verus!
