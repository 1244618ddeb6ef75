//! Rules for the paths that a repository may use.

use vstd::prelude::*;

use crate::bytes;
use crate::{Error, Result};

verus! {

/// A part of a path that names something: neither empty nor `.`.
pub open spec fn names_something(part: Seq<u8>) -> bool {
    part.len() > 0 && part != seq![46u8]
}

/// The parts of a storage path, without the ones that name nothing.
pub open spec fn normal_parts(path: Seq<u8>) -> Seq<Seq<u8>> {
    bytes::split(path, 47).filter(|part: Seq<u8>| names_something(part))
}

/// A storage path stays below its root: it is relative and never goes up.
pub open spec fn stays_below(path: Seq<u8>) -> bool {
    &&& !(path.len() > 0 && path[0] == 47)
    &&& !bytes::split(path, 47).contains(seq![46u8, 46u8])
}

/// The plain form of a storage path.
pub open spec fn normalized(path: Seq<u8>) -> Option<Seq<u8>> {
    if stays_below(path) {
        Some(bytes::join(normal_parts(path), 47))
    } else {
        None
    }
}

fn is_current(part: &[u8]) -> (r: bool)
    ensures
        r == (part@ == seq![46u8]),
{
    let r = part.len() == 1 && part[0] == 46;
    proof {
        if r {
            assert(part@ =~= seq![46u8]);
        }
    }
    r
}

fn is_parent(part: &[u8]) -> (r: bool)
    ensures
        r == (part@ == seq![46u8, 46u8]),
{
    let r = part.len() == 2 && part[0] == 46 && part[1] == 46;
    proof {
        if r {
            assert(part@ =~= seq![46u8, 46u8]);
        }
    }
    r
}

/// Checks a storage path and gives its plain form.
pub fn validate(path: &[u8]) -> (r: Result<Vec<u8>>)
    ensures
        match normalized(path@) {
            Some(plain) => r is Ok && r->Ok_0@ == plain,
            None => r is Err && r->Err_0 is InvalidPath && r->Err_0->InvalidPath_0@ == path@,
        },
{
    if path.len() > 0 && path[0] == 47 {
        return Err(Error::InvalidPath(bytes::to_vec(path)));
    }
    let parts = bytes::split_on(path, 47);
    let ghost all = bytes::deep(parts@);
    let ghost keep = |part: Seq<u8>| names_something(part);
    let mut plain: Vec<u8> = Vec::new();
    let mut first: bool = true;
    let mut i: usize = 0;
    proof {
        reveal(Seq::filter);
    }
    assert(all.take(0).filter(keep) =~= Seq::<Seq<u8>>::empty());
    while i < parts.len()
        invariant
            i <= parts@.len(),
            all == bytes::deep(parts@),
            all == bytes::split(path@, 47),
            keep == (|part: Seq<u8>| names_something(part)),
            plain@ == bytes::join(all.take(i as int).filter(keep), 47),
            first == (all.take(i as int).filter(keep).len() == 0),
            forall|j: int| 0 <= j < i ==> #[trigger] all[j] != seq![46u8, 46u8],
        decreases parts@.len() - i,
    {
        let part = parts[i].as_slice();
        assert(part@ == all[i as int]);
        proof {
            reveal(Seq::filter);
            assert(all.take(i + 1).drop_last() =~= all.take(i as int));
            assert(all.take(i + 1).last() == all[i as int]);
        }
        if is_parent(part) {
            assert(all.contains(seq![46u8, 46u8]));
            return Err(Error::InvalidPath(bytes::to_vec(path)));
        }
        if part.len() > 0 && !is_current(part) {
            let ghost done = all.take(i as int).filter(keep);
            let ghost next = all.take(i + 1).filter(keep);
            assert(next =~= done.push(part@));
            assert(next.drop_last() =~= done);
            if first {
                assert(done =~= Seq::<Seq<u8>>::empty());
            } else {
                plain.push(47);
            }
            bytes::append(&mut plain, part);
            assert(plain@ =~= bytes::join(next, 47));
            first = false;
        }
        i += 1;
    }
    assert(all.take(i as int) =~= all);
    Ok(plain)
}

/// The parts of a split hold no separator.
pub proof fn lemma_split_parts(s: Seq<u8>, separator: u8)
    ensures
        forall|i: int, j: int|
            0 <= i < bytes::split(s, separator).len() && 0 <= j < bytes::split(s, separator)[i].len()
                ==> #[trigger] bytes::split(s, separator)[i][j] != separator,
    decreases s.len(),
{
    let at = bytes::index_from(s, separator, 0);
    bytes::lemma_index_from(s, separator, 0);
    if at < s.len() {
        let rest = s.skip(at + 1);
        lemma_split_parts(rest, separator);
        let all = bytes::split(s, separator);
        assert(all =~= seq![s.take(at)] + bytes::split(rest, separator));
        assert forall|i: int, j: int| 0 <= i < all.len() && 0 <= j < all[i].len() implies
            #[trigger] all[i][j] != separator by {
            if i > 0 {
                assert(all[i] == bytes::split(rest, separator)[i - 1]);
            }
        }
    }
}

proof fn lemma_join_first(parts: Seq<Seq<u8>>, separator: u8)
    requires
        parts.len() > 0,
        parts[0].len() > 0,
    ensures
        bytes::join(parts, separator).len() > 0,
        bytes::join(parts, separator)[0] == parts[0][0],
    decreases parts.len(),
{
    if parts.len() > 1 {
        lemma_join_first(parts.drop_last(), separator);
    }
}

/// A plain path never begins with a slash.
pub proof fn lemma_normalized_first(path: Seq<u8>)
    requires
        normalized(path) is Some,
    ensures
        normalized(path)->0.len() > 0 ==> normalized(path)->0[0] != 47,
{
    let keep = |part: Seq<u8>| names_something(part);
    let all = bytes::split(path, 47);
    let parts = normal_parts(path);
    if parts.len() > 0 {
        assert(parts.contains(parts[0]));
        all.lemma_filter_contains_rev(keep, parts[0]);
        all.lemma_filter_pred(keep, 0);
        lemma_split_parts(path, 47);
        let i = all.index_of(parts[0]);
        assert(all[i][0] != 47);
        lemma_join_first(parts, 47);
    }
}

/// Splitting a concatenation at the separator between its halves.
pub proof fn lemma_split_concat(a: Seq<u8>, b: Seq<u8>, separator: u8)
    ensures
        bytes::split(a.push(separator) + b, separator) == bytes::split(a, separator)
            + bytes::split(b, separator),
    decreases a.len(),
{
    let whole = a.push(separator) + b;
    let at = bytes::index_from(a, separator, 0);
    bytes::lemma_index_from(a, separator, 0);
    assert forall|i: int| 0 <= i < at implies whole[i] != separator by {
        assert(whole[i] == a[i]);
    }
    assert(whole[at] == separator);
    bytes::lemma_index_from_is(whole, separator, 0, at);
    assert(whole.take(at) =~= a.take(at));
    if at < a.len() {
        let rest = a.skip(at + 1);
        lemma_split_concat(rest, b, separator);
        assert(whole.skip(at + 1) =~= rest.push(separator) + b);
        assert(bytes::split(whole, separator) =~= bytes::split(a, separator) + bytes::split(
            b,
            separator,
        ));
    } else {
        assert(whole.skip(at + 1) =~= b);
        assert(a.take(at) =~= a);
        assert(bytes::split(whole, separator) =~= bytes::split(a, separator) + bytes::split(
            b,
            separator,
        ));
    }
}

/// A part without the separator is one part.
pub proof fn lemma_split_single(s: Seq<u8>, separator: u8)
    requires
        forall|i: int| 0 <= i < s.len() ==> s[i] != separator,
    ensures
        bytes::split(s, separator) == seq![s],
{
    bytes::lemma_index_from_is(s, separator, 0, s.len() as int);
}

/// A list of parts that a plain path can have.
pub open spec fn plain_parts(parts: Seq<Seq<u8>>) -> bool {
    forall|i: int|
        0 <= i < parts.len() ==> {
            &&& names_something(#[trigger] parts[i])
            &&& parts[i] != seq![46u8, 46u8]
            &&& forall|j: int| 0 <= j < parts[i].len() ==> parts[i][j] != 47
        }
}

proof fn lemma_split_join(parts: Seq<Seq<u8>>)
    requires
        plain_parts(parts),
        parts.len() > 0,
    ensures
        bytes::split(bytes::join(parts, 47), 47) == parts,
    decreases parts.len(),
{
    if parts.len() == 1 {
        lemma_split_single(parts[0], 47);
        assert(seq![parts[0]] =~= parts);
    } else {
        let init = parts.drop_last();
        lemma_split_join(init);
        lemma_split_concat(bytes::join(init, 47), parts.last(), 47);
        lemma_split_single(parts.last(), 47);
        assert(init + seq![parts.last()] =~= parts);
    }
}

proof fn lemma_filter_all(parts: Seq<Seq<u8>>)
    requires
        plain_parts(parts),
    ensures
        parts.filter(|part: Seq<u8>| names_something(part)) == parts,
    decreases parts.len(),
{
    reveal(Seq::filter);
    if parts.len() > 0 {
        lemma_filter_all(parts.drop_last());
        assert(parts.drop_last().push(parts.last()) =~= parts);
    }
}

/// Parts that a plain path can have, joined, are a plain path.
pub proof fn lemma_join_plain(parts: Seq<Seq<u8>>)
    requires
        plain_parts(parts),
    ensures
        normalized(bytes::join(parts, 47)) == Some(bytes::join(parts, 47)),
        parts.len() > 0 ==> bytes::split(bytes::join(parts, 47), 47) == parts,
{
    let keep = |part: Seq<u8>| names_something(part);
    if parts.len() == 0 {
        let e = Seq::<u8>::empty();
        lemma_split_single(e, 47);
        assert(bytes::join(parts, 47) == e);
        reveal_with_fuel(Seq::filter, 2);
        assert(seq![e].drop_last() =~= Seq::<Seq<u8>>::empty());
        assert(normal_parts(e) =~= Seq::<Seq<u8>>::empty());
        assert(!bytes::split(e, 47).contains(seq![46u8, 46u8])) by {
            assert(seq![46u8, 46u8].len() == 2);
        }
    } else {
        lemma_split_join(parts);
        lemma_filter_all(parts);
        lemma_join_first(parts, 47);
    }
}

/// The parts of a plain path.
pub proof fn lemma_normal_parts(path: Seq<u8>)
    requires
        stays_below(path),
    ensures
        plain_parts(normal_parts(path)),
{
    let keep = |part: Seq<u8>| names_something(part);
    let all = bytes::split(path, 47);
    let parts = normal_parts(path);
    assert forall|i: int| 0 <= i < parts.len() implies {
        &&& names_something(#[trigger] parts[i])
        &&& parts[i] != seq![46u8, 46u8]
        &&& forall|j: int| 0 <= j < parts[i].len() ==> parts[i][j] != 47
    } by {
        assert(parts.contains(parts[i]));
        all.lemma_filter_contains_rev(keep, parts[i]);
        all.lemma_filter_pred(keep, i);
        lemma_split_parts(path, 47);
        let k = all.index_of(parts[i]);
        assert(all[k] == parts[i]);
    }
}

/// A path that is already in its plain form.
pub open spec fn plain(path: Seq<u8>) -> bool {
    normalized(path) == Some(path)
}

/// The plain form of a path is its own plain form.
pub proof fn lemma_normalized_plain(path: Seq<u8>)
    requires
        normalized(path) is Some,
    ensures
        plain(normalized(path)->0),
{
    lemma_normal_parts(path);
    lemma_join_plain(normal_parts(path));
}

proof fn lemma_join_concat(a: Seq<Seq<u8>>, b: Seq<Seq<u8>>)
    requires
        a.len() > 0,
        b.len() > 0,
    ensures
        bytes::join(a + b, 47) == bytes::join(a, 47).push(47) + bytes::join(b, 47),
    decreases b.len(),
{
    let c = a + b;
    if b.len() == 1 {
        assert(c.drop_last() =~= a);
    } else {
        lemma_join_concat(a, b.drop_last());
        assert(c.drop_last() =~= a + b.drop_last());
        assert(bytes::join(c, 47) =~= bytes::join(a, 47).push(47) + bytes::join(b, 47));
    }
}

/// A plain path below a plain path is plain.
pub proof fn lemma_plain_concat(a: Seq<u8>, b: Seq<u8>)
    requires
        plain(a),
        plain(b),
        a.len() > 0,
        b.len() > 0,
    ensures
        plain(a.push(47) + b),
{
    let pa = normal_parts(a);
    let pb = normal_parts(b);
    lemma_normal_parts(a);
    lemma_normal_parts(b);
    lemma_join_concat(pa, pb);
    let all = pa + pb;
    assert forall|i: int| 0 <= i < all.len() implies {
        &&& names_something(#[trigger] all[i])
        &&& all[i] != seq![46u8, 46u8]
        &&& forall|j: int| 0 <= j < all[i].len() ==> all[i][j] != 47
    } by {
        if i < pa.len() {
            assert(all[i] == pa[i]);
        } else {
            assert(all[i] == pb[i - pa.len()]);
        }
    }
    lemma_join_plain(all);
}

/// A name without slashes that is neither empty nor made of one or two dots
/// is a plain path.
pub proof fn lemma_plain_name(name: Seq<u8>)
    requires
        name.len() > 0,
        forall|i: int| 0 <= i < name.len() ==> name[i] != 47,
        name != seq![46u8],
        name != seq![46u8, 46u8],
    ensures
        plain(name),
{
    let parts = seq![name];
    assert(plain_parts(parts));
    lemma_join_plain(parts);
    assert(bytes::join(parts, 47) == name) by {
        reveal_with_fuel(bytes::join, 2);
    }
}

/// A plain path whose last name is made longer stays plain.
pub proof fn lemma_plain_longer(p: Seq<u8>, suffix: Seq<u8>)
    requires
        plain(p),
        p.len() > 0,
        suffix.len() > 1,
        forall|i: int| 0 <= i < suffix.len() ==> suffix[i] != 47,
        suffix[1] != 46,
    ensures
        plain(p + suffix),
{
    let parts = normal_parts(p);
    lemma_normal_parts(p);
    assert(parts.len() > 0);
    let last = parts.last() + suffix;
    let more = parts.drop_last().push(last);
    assert forall|i: int| 0 <= i < more.len() implies {
        &&& names_something(#[trigger] more[i])
        &&& more[i] != seq![46u8, 46u8]
        &&& forall|j: int| 0 <= j < more[i].len() ==> more[i][j] != 47
    } by {
        if i < parts.len() - 1 {
            assert(more[i] == parts[i]);
        } else {
            let old = parts[parts.len() - 1];
            assert(old.len() > 0);
            assert(last.len() > 2);
            assert forall|j: int| 0 <= j < last.len() implies last[j] != 47 by {
                if j < old.len() {
                    assert(last[j] == old[j]);
                } else {
                    assert(last[j] == suffix[j - old.len()]);
                }
            }
        }
    }
    lemma_join_plain(more);
    assert(more.drop_last() =~= parts.drop_last());
    if parts.len() == 1 {
        assert(bytes::join(more, 47) =~= p + suffix);
    } else {
        assert(bytes::join(more, 47) =~= p + suffix);
    }
}

/// Whether only dots and spaces, and then nothing or a colon, remain.
pub open spec fn ends_like_alias(rest: Seq<u8>) -> bool
    decreases rest.len(),
{
    if rest.len() == 0 {
        true
    } else if rest[0] == 46 || rest[0] == 32 {
        ends_like_alias(rest.skip(1))
    } else {
        rest[0] == 58
    }
}

/// Whether Windows would take a component for `.git`.
pub open spec fn dotgit_alias(component: Seq<u8>) -> bool {
    let l = bytes::lower(component);
    if bytes::has_prefix(l, bytes::utf8(".git"@)) {
        ends_like_alias(l.skip(bytes::utf8(".git"@).len() as int))
    } else if bytes::has_prefix(l, bytes::utf8("git~1"@)) {
        ends_like_alias(l.skip(bytes::utf8("git~1"@).len() as int))
    } else {
        false
    }
}

fn alias_tail(s: &[u8], from: usize) -> (r: bool)
    requires
        from <= s@.len(),
    ensures
        r == ends_like_alias(s@.skip(from as int)),
{
    let mut i: usize = from;
    while i < s.len()
        invariant
            from <= i <= s@.len(),
            ends_like_alias(s@.skip(from as int)) == ends_like_alias(s@.skip(i as int)),
        decreases s@.len() - i,
    {
        if s[i] == 46 || s[i] == 32 {
            assert(s@.skip(i as int).skip(1) =~= s@.skip(i + 1));
            i += 1;
        } else {
            return s[i] == 58;
        }
    }
    true
}

/// Detects a path component that Windows would resolve to `.git`.
///
/// Win32 ignores case, strips trailing dots and spaces, and reads what follows
/// a colon as a stream of the file before it; `git~1` is the short name that
/// NTFS gives to `.git`.
pub fn is_ntfs_dotgit(component: &[u8]) -> (r: bool)
    ensures
        r == dotgit_alias(component@),
{
    let l = bytes::to_lower(component);
    let dot = ".git".as_bytes();
    let short = "git~1".as_bytes();
    if bytes::starts_with(l.as_slice(), dot) {
        alias_tail(l.as_slice(), dot.len())
    } else if bytes::starts_with(l.as_slice(), short) {
        alias_tail(l.as_slice(), short.len())
    } else {
        false
    }
}

/// Rejects a backslash, which Windows takes for a separator.
pub fn reject_backslash(path: &[u8]) -> (r: Result<()>)
    ensures
        r == (if path@.contains(92) {
            Err::<(), Error>(Error::InvalidRepository("backslash in repository path"))
        } else {
            Ok(())
        }),
{
    if bytes::contains_byte(path, 92) {
        return Err(Error::InvalidRepository("backslash in repository path"));
    }
    Ok(())
}

/// A part that a path inside the repository may have.
pub open spec fn safe_part(part: Seq<u8>) -> bool {
    names_something(part) && part != seq![46u8, 46u8] && !dotgit_alias(part)
}

/// A path that may be written into the work tree.
pub open spec fn safe(path: Seq<u8>) -> bool {
    &&& path.len() > 0
    &&& path[0] != 47
    &&& !path.contains(0)
    &&& !path.contains(92)
    &&& forall|i: int|
        0 <= i < bytes::split(path, 47).len() ==> safe_part(#[trigger] bytes::split(path, 47)[i])
}

/// Whether a path may be written into the work tree.
pub fn is_safe(path: &[u8]) -> (r: bool)
    ensures
        r == safe(path@),
{
    if path.len() == 0 || path[0] == 47 || bytes::contains_byte(path, 0) || bytes::contains_byte(
        path,
        92,
    ) {
        return false;
    }
    let parts = bytes::split_on(path, 47);
    let ghost all = bytes::deep(parts@);
    let mut i: usize = 0;
    while i < parts.len()
        invariant
            i <= parts@.len(),
            all == bytes::deep(parts@),
            all == bytes::split(path@, 47),
            forall|j: int| 0 <= j < i ==> safe_part(#[trigger] all[j]),
        decreases parts@.len() - i,
    {
        let part = parts[i].as_slice();
        assert(part@ == all[i as int]);
        if part.len() == 0 || is_current(part) || is_parent(part) || is_ntfs_dotgit(part) {
            assert(!safe_part(bytes::split(path@, 47)[i as int]));
            return false;
        }
        i += 1;
    }
    true
}

/// Checks a path inside the repository before it is written to the work tree.
pub fn validate_path(path: &[u8]) -> (r: Result<()>)
    ensures
        r == (if path@.contains(92) {
            Err::<(), Error>(Error::InvalidRepository("backslash in repository path"))
        } else if !safe(path@) {
            Err(Error::InvalidRepository("unsafe repository path"))
        } else {
            Ok(())
        }),
{
    match reject_backslash(path) {
        Err(error) => return Err(error),
        Ok(()) => {},
    }
    if !is_safe(path) {
        return Err(Error::InvalidRepository("unsafe repository path"));
    }
    Ok(())
}

} // verus!
