//! The paths by which a linked worktree and its registration point at each
//! other.

use vstd::prelude::*;

use crate::bytes;
use crate::fs::path;
use crate::{Error, Result};

verus! {

/// A line without the newline at its end.
pub open spec fn line_of(contents: Seq<u8>) -> Seq<u8> {
    if contents.len() > 0 && contents.last() == 10 {
        contents.drop_last()
    } else {
        contents
    }
}

/// Cuts the newline at the end.
pub fn cut_newline(contents: &[u8]) -> (r: &[u8])
    ensures
        r@ == line_of(contents@),
{
    let n: usize = contents.len();
    if n > 0 && contents[n - 1] == 10 {
        let r = &contents[0..n - 1];
        assert(r@ =~= contents@.drop_last());
        r
    } else {
        contents
    }
}

/// The path that a linking file holds.
pub open spec fn path_in(contents: Seq<u8>) -> core::result::Result<Seq<u8>, Error> {
    let value = line_of(contents);
    if !vstd::utf8::valid_utf8(value) {
        Err(Error::InvalidRepository("non-UTF-8 worktree path"))
    } else if value.len() == 0 || value.contains(0) || value.contains(10) || value.contains(13) {
        Err(Error::InvalidRepository("invalid worktree path"))
    } else {
        Ok(value)
    }
}

/// Reads the path that a linking file holds.
pub fn parse_path_file(contents: &[u8]) -> (r: Result<Vec<u8>>)
    ensures
        match path_in(contents@) {
            Ok(value) => r is Ok && r->Ok_0@ == value,
            Err(error) => r is Err && r->Err_0 == error,
        },
{
    let value = cut_newline(contents);
    if bytes::text_of(value).is_none() {
        return Err(Error::InvalidRepository("non-UTF-8 worktree path"));
    }
    if value.len() == 0 || bytes::contains_byte(value, 0) || bytes::contains_byte(value, 10)
        || bytes::contains_byte(value, 13) {
        return Err(Error::InvalidRepository("invalid worktree path"));
    }
    Ok(bytes::to_vec(value))
}

/// The part that stands for the directory above.
pub open spec fn upward() -> Seq<u8> {
    seq![46u8, 46u8]
}

/// Where the first `n` parts of a path lead from a place; a path that goes
/// above the root leads nowhere.
pub open spec fn walked(base: Seq<Seq<u8>>, parts: Seq<Seq<u8>>, n: int) -> Option<Seq<Seq<u8>>>
    decreases n,
{
    if n <= 0 {
        Some(base)
    } else {
        match walked(base, parts, n - 1) {
            None => None,
            Some(place) => {
                let part = parts[n - 1];
                if !path::names_something(part) {
                    Some(place)
                } else if part == upward() {
                    if place.len() == 0 {
                        None
                    } else {
                        Some(place.drop_last())
                    }
                } else {
                    Some(place.push(part))
                }
            },
        }
    }
}

/// Where a relative path leads from a plain directory.
pub open spec fn relative_target(base: Seq<u8>, value: Seq<u8>) -> core::result::Result<
    Seq<u8>,
    Error,
> {
    if value.len() > 0 && value[0] == 47 {
        Err(Error::InvalidRepository("invalid worktree path"))
    } else {
        let parts = bytes::split(value, 47);
        match walked(path::normal_parts(base), parts, parts.len() as int) {
            None => Err(Error::InvalidRepository("worktree path escapes storage")),
            Some(place) => Ok(bytes::join(place, 47)),
        }
    }
}

/// Where a path that a linking file holds leads: an absolute path is taken
/// from the root, any other from a plain directory.
pub open spec fn target(base: Seq<u8>, value: Seq<u8>) -> core::result::Result<Seq<u8>, Error> {
    if value.len() > 0 && value[0] == 47 {
        let parts = path::normal_parts(value);
        if parts.len() == 0 || parts.contains(upward()) {
            Err(Error::InvalidRepository("invalid absolute worktree path"))
        } else {
            Ok(bytes::join(parts, 47))
        }
    } else {
        relative_target(base, value)
    }
}

/// The parts of a path that name something.
pub fn components(p: &[u8]) -> (r: Vec<Vec<u8>>)
    ensures
        bytes::deep(r@) == path::normal_parts(p@),
{
    let parts = bytes::split_on(p, 47);
    let ghost all = bytes::deep(parts@);
    let ghost keep = |part: Seq<u8>| path::names_something(part);
    let mut out: Vec<Vec<u8>> = Vec::new();
    let mut i: usize = 0;
    proof {
        reveal(Seq::filter);
        assert(all.take(0).filter(keep) =~= Seq::<Seq<u8>>::empty());
        assert(bytes::deep(out@) =~= Seq::<Seq<u8>>::empty());
    }
    while i < parts.len()
        invariant
            i <= parts@.len(),
            all == bytes::deep(parts@),
            all == bytes::split(p@, 47),
            keep == (|part: Seq<u8>| path::names_something(part)),
            bytes::deep(out@) == all.take(i as int).filter(keep),
        decreases parts@.len() - i,
    {
        let part = parts[i].as_slice();
        assert(part@ == all[i as int]);
        proof {
            reveal(Seq::filter);
            assert(all.take(i + 1).drop_last() =~= all.take(i as int));
            assert(all.take(i + 1).last() == all[i as int]);
        }
        let current = part.len() == 1 && part[0] == 46;
        proof {
            if current {
                assert(part@ =~= seq![46u8]);
            }
        }
        if part.len() > 0 && !current {
            let ghost before = out@;
            out.push(bytes::to_vec(part));
            assert(bytes::deep(out@) =~= bytes::deep(before).push(part@));
        }
        i += 1;
    }
    assert(all.take(i as int) =~= all);
    out
}

/// Joins parts with slashes.
pub fn joined_parts(parts: &Vec<Vec<u8>>) -> (r: Vec<u8>)
    ensures
        r@ == bytes::join(bytes::deep(parts@), 47),
{
    let ghost all = bytes::deep(parts@);
    let mut out: Vec<u8> = Vec::new();
    let mut i: usize = 0;
    while i < parts.len()
        invariant
            i <= parts@.len(),
            all == bytes::deep(parts@),
            out@ == bytes::join(all.take(i as int), 47),
        decreases parts@.len() - i,
    {
        let ghost done = all.take(i as int);
        let ghost next = all.take(i + 1);
        assert(next.drop_last() =~= done);
        assert(next.last() == all[i as int]);
        if i > 0 {
            out.push(47);
        } else {
            assert(done =~= Seq::<Seq<u8>>::empty());
        }
        bytes::append(&mut out, parts[i].as_slice());
        assert(out@ =~= bytes::join(next, 47));
        i += 1;
    }
    assert(all.take(i as int) =~= all);
    out
}

fn is_upward(part: &[u8]) -> (r: bool)
    ensures
        r == (part@ == upward()),
{
    let r = part.len() == 2 && part[0] == 46 && part[1] == 46;
    proof {
        if r {
            assert(part@ =~= upward());
        }
    }
    r
}

/// A path that leads nowhere leads nowhere however it goes on.
proof fn lemma_walked_stays(base: Seq<Seq<u8>>, parts: Seq<Seq<u8>>, n: int, m: int)
    requires
        0 <= n <= m,
        walked(base, parts, n) is None,
    ensures
        walked(base, parts, m) is None,
    decreases m - n,
{
    if n < m {
        lemma_walked_stays(base, parts, n, m - 1);
    }
}

/// The parts of the place where a path leads can stand in a plain path.
pub proof fn lemma_walked_plain(base: Seq<Seq<u8>>, value: Seq<u8>, n: int)
    requires
        path::plain_parts(base),
        0 <= n <= bytes::split(value, 47).len(),
        walked(base, bytes::split(value, 47), n) is Some,
    ensures
        path::plain_parts(walked(base, bytes::split(value, 47), n)->0),
    decreases n,
{
    let parts = bytes::split(value, 47);
    if n > 0 {
        lemma_walked_plain(base, value, n - 1);
        path::lemma_split_parts(value, 47);
        let before = walked(base, parts, n - 1)->0;
        let after = walked(base, parts, n)->0;
        let part = parts[n - 1];
        assert forall|i: int| 0 <= i < after.len() implies {
            &&& path::names_something(#[trigger] after[i])
            &&& after[i] != seq![46u8, 46u8]
            &&& forall|j: int| 0 <= j < after[i].len() ==> after[i][j] != 47
        } by {
            if i < before.len() {
                assert(after[i] == before[i]);
            } else {
                assert(after[i] == part);
            }
        }
    }
}

/// Finds where a relative path leads from a plain directory.
pub fn resolve_relative(base: &[u8], value: &[u8]) -> (r: Result<Vec<u8>>)
    requires
        path::plain(base@),
    ensures
        match relative_target(base@, value@) {
            Ok(place) => r is Ok && r->Ok_0@ == place && path::plain(place),
            Err(error) => r is Err && r->Err_0 == error,
        },
{
    if value.len() > 0 && value[0] == 47 {
        return Err(Error::InvalidRepository("invalid worktree path"));
    }
    let parts = bytes::split_on(value, 47);
    let mut place = components(base);
    let ghost all = bytes::deep(parts@);
    let ghost start = path::normal_parts(base@);
    let mut i: usize = 0;
    while i < parts.len()
        invariant
            i <= parts@.len(),
            all == bytes::deep(parts@),
            all == bytes::split(value@, 47),
            start == path::normal_parts(base@),
            walked(start, all, i as int) == Some(bytes::deep(place@)),
            !(value@.len() > 0 && value@[0] == 47),
        decreases parts@.len() - i,
    {
        let part = parts[i].as_slice();
        assert(part@ == all[i as int]);
        let current = part.len() == 1 && part[0] == 46;
        proof {
            if current {
                assert(part@ =~= seq![46u8]);
            }
        }
        let ghost before = place@;
        if part.len() > 0 && !current {
            if is_upward(part) {
                if place.len() == 0 {
                    proof {
                        lemma_walked_stays(start, all, i + 1, all.len() as int);
                    }
                    return Err(Error::InvalidRepository("worktree path escapes storage"));
                }
                let _ = place.pop();
                assert(bytes::deep(place@) =~= bytes::deep(before).drop_last());
            } else {
                place.push(bytes::to_vec(part));
                assert(bytes::deep(place@) =~= bytes::deep(before).push(part@));
            }
        }
        i += 1;
    }
    proof {
        path::lemma_normal_parts(base@);
        lemma_walked_plain(start, value@, i as int);
        path::lemma_join_plain(bytes::deep(place@));
    }
    Ok(joined_parts(&place))
}

/// Finds where the path of a linking file leads.
pub fn resolve_worktree_path(base: &[u8], value: &[u8]) -> (r: Result<Vec<u8>>)
    requires
        path::plain(base@),
    ensures
        match target(base@, value@) {
            Ok(place) => r is Ok && r->Ok_0@ == place && path::plain(place),
            Err(error) => r is Err && r->Err_0 == error,
        },
{
    if !(value.len() > 0 && value[0] == 47) {
        return resolve_relative(base, value);
    }
    let parts = components(value);
    let ghost all = bytes::deep(parts@);
    if parts.len() == 0 {
        return Err(Error::InvalidRepository("invalid absolute worktree path"));
    }
    let mut i: usize = 0;
    while i < parts.len()
        invariant
            i <= parts@.len(),
            all == bytes::deep(parts@),
            all == path::normal_parts(value@),
            value@.len() > 0 && value@[0] == 47,
            forall|j: int| 0 <= j < i ==> #[trigger] all[j] != upward(),
        decreases parts@.len() - i,
    {
        if is_upward(parts[i].as_slice()) {
            assert(all[i as int] == upward());
            assert(all.contains(upward()));
            return Err(Error::InvalidRepository("invalid absolute worktree path"));
        }
        i += 1;
    }
    proof {
        assert(!all.contains(upward()));
        let keep = |part: Seq<u8>| path::names_something(part);
        let split = bytes::split(value@, 47);
        path::lemma_split_parts(value@, 47);
        assert forall|i: int| 0 <= i < all.len() implies {
            &&& path::names_something(#[trigger] all[i])
            &&& all[i] != seq![46u8, 46u8]
            &&& forall|j: int| 0 <= j < all[i].len() ==> all[i][j] != 47
        } by {
            assert(all.contains(all[i]));
            split.lemma_filter_contains_rev(keep, all[i]);
            split.lemma_filter_pred(keep, i);
            let k = split.index_of(all[i]);
            assert(split[k] == all[i]);
        }
        path::lemma_join_plain(all);
    }
    Ok(joined_parts(&parts))
}

/// How many parts two paths share at their start.
pub open spec fn shared_parts(a: Seq<Seq<u8>>, b: Seq<Seq<u8>>) -> int
    decreases a.len(),
{
    if a.len() == 0 || b.len() == 0 || a[0] != b[0] {
        0
    } else {
        1 + shared_parts(a.skip(1), b.skip(1))
    }
}

proof fn lemma_shared_parts(a: Seq<Seq<u8>>, b: Seq<Seq<u8>>)
    ensures
        0 <= shared_parts(a, b) <= a.len(),
        shared_parts(a, b) <= b.len(),
        a.take(shared_parts(a, b)) == b.take(shared_parts(a, b)),
    decreases a.len(),
{
    let n = shared_parts(a, b);
    if a.len() == 0 || b.len() == 0 || a[0] != b[0] {
        assert(a.take(0) =~= b.take(0));
    } else {
        lemma_shared_parts(a.skip(1), b.skip(1));
        assert forall|i: int| 0 <= i < n implies a[i] == b[i] by {
            if i > 0 {
                assert(a.skip(1).take(n - 1)[i - 1] == b.skip(1).take(n - 1)[i - 1]);
            }
        }
        assert(a.take(n) =~= b.take(n));
    }
}

/// The parts of the way from one directory to a path: up to what they share,
/// then down.
pub open spec fn way(from: Seq<Seq<u8>>, to: Seq<Seq<u8>>) -> Seq<Seq<u8>> {
    let n = shared_parts(from, to);
    Seq::new((from.len() - n) as nat, |i: int| upward()) + to.skip(n)
}

/// The relative path that leads from a directory to a path.
pub open spec fn relative(from: Seq<u8>, to: Seq<u8>) -> Seq<u8> {
    let parts = way(path::normal_parts(from), path::normal_parts(to));
    if parts.len() == 0 {
        seq![46u8]
    } else {
        bytes::join(parts, 47)
    }
}

/// Gives the relative path that leads from a directory to a path.
pub fn relative_path(from: &[u8], to: &[u8]) -> (r: Vec<u8>)
    requires
        path::plain(from@),
        path::plain(to@),
    ensures
        r@ == relative(from@, to@),
{
    let a = components(from);
    let b = components(to);
    let ghost pa = bytes::deep(a@);
    let ghost pb = bytes::deep(b@);
    let ghost all = shared_parts(pa, pb);
    let mut n: usize = 0;
    proof {
        assert(pa.skip(0) =~= pa);
        assert(pb.skip(0) =~= pb);
    }
    while n < a.len() && n < b.len() && bytes::bytes_eq(a[n].as_slice(), b[n].as_slice())
        invariant
            n <= a@.len(),
            n <= b@.len(),
            pa == bytes::deep(a@),
            pb == bytes::deep(b@),
            all == n + shared_parts(pa.skip(n as int), pb.skip(n as int)),
        decreases a@.len() - n,
    {
        proof {
            assert(pa.skip(n as int)[0] == pa[n as int]);
            assert(pb.skip(n as int)[0] == pb[n as int]);
            assert(pa.skip(n as int).skip(1) =~= pa.skip(n + 1));
            assert(pb.skip(n as int).skip(1) =~= pb.skip(n + 1));
        }
        n += 1;
    }
    proof {
        if n < a.len() && n < b.len() {
            assert(pa.skip(n as int)[0] == pa[n as int]);
            assert(pb.skip(n as int)[0] == pb[n as int]);
        }
    }
    assert(all == n);
    let mut parts: Vec<Vec<u8>> = Vec::new();
    let mut i: usize = n;
    while i < a.len()
        invariant
            n <= i <= a@.len(),
            bytes::deep(parts@) == Seq::new((i - n) as nat, |k: int| upward()),
        decreases a@.len() - i,
    {
        let mut up: Vec<u8> = Vec::new();
        up.push(46);
        up.push(46);
        assert(up@ =~= upward());
        let ghost before = parts@;
        parts.push(up);
        assert(bytes::deep(parts@) =~= bytes::deep(before).push(upward()));
        assert(bytes::deep(parts@) =~= Seq::new((i + 1 - n) as nat, |k: int| upward()));
        i += 1;
    }
    let ghost ups = Seq::new((pa.len() - n) as nat, |k: int| upward());
    let mut j: usize = n;
    assert(bytes::deep(parts@) =~= ups + pb.subrange(n as int, n as int));
    while j < b.len()
        invariant
            n <= j <= b@.len(),
            pb == bytes::deep(b@),
            bytes::deep(parts@) == ups + pb.subrange(n as int, j as int),
        decreases b@.len() - j,
    {
        let ghost before = parts@;
        parts.push(bytes::to_vec(b[j].as_slice()));
        assert(bytes::deep(parts@) =~= bytes::deep(before).push(pb[j as int]));
        assert(bytes::deep(parts@) =~= ups + pb.subrange(n as int, j + 1));
        j += 1;
    }
    assert(bytes::deep(parts@) =~= way(pa, pb));
    if parts.len() == 0 {
        let mut r: Vec<u8> = Vec::new();
        r.push(46);
        assert(r@ =~= seq![46u8]);
        r
    } else {
        joined_parts(&parts)
    }
}

/// Splitting what was joined from parts without slashes gives the parts back.
pub proof fn lemma_split_joined(parts: Seq<Seq<u8>>)
    requires
        parts.len() > 0,
        forall|i: int, j: int|
            0 <= i < parts.len() && 0 <= j < parts[i].len() ==> #[trigger] parts[i][j] != 47,
    ensures
        bytes::split(bytes::join(parts, 47), 47) == parts,
    decreases parts.len(),
{
    let last = parts.last();
    assert forall|j: int| 0 <= j < last.len() implies last[j] != 47 by {
        assert(parts[parts.len() - 1][j] != 47);
    }
    path::lemma_split_single(last, 47);
    if parts.len() == 1 {
        assert(seq![parts[0]] =~= parts);
    } else {
        let init = parts.drop_last();
        assert forall|i: int, j: int| 0 <= i < init.len() && 0 <= j < init[i].len() implies
            #[trigger] init[i][j] != 47 by {
            assert(parts[i][j] != 47);
        }
        lemma_split_joined(init);
        path::lemma_split_concat(bytes::join(init, 47), last, 47);
        assert(init + seq![last] =~= parts);
    }
}

proof fn lemma_walk_up(base: Seq<Seq<u8>>, parts: Seq<Seq<u8>>, n: int)
    requires
        0 <= n <= parts.len(),
        n <= base.len(),
        forall|i: int| 0 <= i < n ==> #[trigger] parts[i] == upward(),
    ensures
        walked(base, parts, n) == Some(base.take(base.len() - n)),
    decreases n,
{
    if n > 0 {
        lemma_walk_up(base, parts, n - 1);
        assert(parts[n - 1] == upward());
        assert(upward().len() == 2);
        assert(base.take(base.len() - (n - 1)).drop_last() =~= base.take(base.len() - n));
    } else {
        assert(base.take(base.len() as int) =~= base);
    }
}

proof fn lemma_walk_down(base: Seq<Seq<u8>>, parts: Seq<Seq<u8>>, from: int, n: int, place: Seq<Seq<u8>>)
    requires
        0 <= from <= n <= parts.len(),
        walked(base, parts, from) == Some(place),
        path::plain_parts(parts.skip(from)),
    ensures
        walked(base, parts, n) == Some(place + parts.subrange(from, n)),
    decreases n - from,
{
    if n > from {
        lemma_walk_down(base, parts, from, n - 1, place);
        assert(parts.skip(from)[n - 1 - from] == parts[n - 1]);
        assert((place + parts.subrange(from, n - 1)).push(parts[n - 1]) =~= place
            + parts.subrange(from, n));
    } else {
        assert(place + parts.subrange(from, n) =~= place);
    }
}

/// A plain path is its parts joined.
proof fn lemma_plain_joined(p: Seq<u8>)
    requires
        path::plain(p),
    ensures
        path::plain_parts(path::normal_parts(p)),
        bytes::join(path::normal_parts(p), 47) == p,
{
    path::lemma_normal_parts(p);
}

/// The relative path from a directory to a path leads from the one to the
/// other.
pub proof fn lemma_relative_leads(from: Seq<u8>, to: Seq<u8>)
    requires
        path::plain(from),
        path::plain(to),
    ensures
        relative_target(from, relative(from, to)) == Ok::<Seq<u8>, Error>(to),
        target(from, relative(from, to)) == Ok::<Seq<u8>, Error>(to),
{
    let a = path::normal_parts(from);
    let b = path::normal_parts(to);
    lemma_plain_joined(from);
    lemma_plain_joined(to);
    lemma_shared_parts(a, b);
    let n = shared_parts(a, b);
    let steps = way(a, b);
    let value = relative(from, to);
    if steps.len() == 0 {
        assert(a.take(n) =~= a);
        assert(b.take(n) =~= b);
        path::lemma_split_single(value, 47);
        let parts = bytes::split(value, 47);
        assert(parts[0] == value);
        reveal_with_fuel(walked, 2);
        assert(walked(a, parts, 1) == Some(a));
    } else {
        let ups = a.len() - n;
        assert forall|i: int, j: int| 0 <= i < steps.len() && 0 <= j < steps[i].len() implies
            #[trigger] steps[i][j] != 47 by {
            if i < ups {
                assert(steps[i] == upward());
            } else {
                assert(steps[i] == b[i - ups + n]);
            }
        }
        lemma_split_joined(steps);
        assert(steps[0].len() > 0) by {
            if ups == 0 {
                assert(steps[0] == b[n]);
            } else {
                assert(steps[0] == upward());
            }
        }
        lemma_first_of_join(steps);
        assert(steps[0][0] != 47);
        assert forall|i: int| 0 <= i < ups implies #[trigger] steps[i] == upward() by {}
        lemma_walk_up(a, steps, ups);
        assert(a.take(a.len() - ups) =~= a.take(n));
        assert(steps.skip(ups) =~= b.skip(n));
        assert(path::plain_parts(b.skip(n))) by {
            assert forall|i: int| 0 <= i < b.skip(n).len() implies {
                &&& path::names_something(#[trigger] b.skip(n)[i])
                &&& b.skip(n)[i] != seq![46u8, 46u8]
                &&& forall|j: int| 0 <= j < b.skip(n)[i].len() ==> b.skip(n)[i][j] != 47
            } by {
                assert(b.skip(n)[i] == b[i + n]);
            }
        }
        lemma_walk_down(a, steps, ups, steps.len() as int, a.take(n));
        assert(steps.subrange(ups, steps.len() as int) =~= b.skip(n));
        assert(a.take(n) + b.skip(n) =~= b);
    }
}

proof fn lemma_first_of_join(parts: Seq<Seq<u8>>)
    requires
        parts.len() > 0,
        parts[0].len() > 0,
    ensures
        bytes::join(parts, 47).len() > 0,
        bytes::join(parts, 47)[0] == parts[0][0],
    decreases parts.len(),
{
    if parts.len() > 1 {
        lemma_first_of_join(parts.drop_last());
    }
}

/// A worktree name is made of letters, digits, `-`, `_` and `.`, and is not
/// made of one or two dots.
pub open spec fn valid_name(name: Seq<u8>) -> bool {
    &&& name.len() > 0
    &&& name != seq![46u8]
    &&& name != seq![46u8, 46u8]
    &&& forall|i: int| 0 <= i < name.len() ==> name_byte(#[trigger] name[i])
}

pub open spec fn name_byte(b: u8) -> bool {
    48 <= b <= 57 || 65 <= b <= 90 || 97 <= b <= 122 || b == 45 || b == 95 || b == 46
}

/// Checks a worktree name.
pub fn validate_worktree_name(name: &[u8]) -> (r: Result<()>)
    ensures
        if valid_name(name@) {
            r is Ok && path::plain(name@)
        } else {
            r is Err && r->Err_0 == Error::InvalidRepository("invalid worktree name")
        },
{
    if name.len() == 0 || (name.len() == 1 && name[0] == 46) || is_upward(name) {
        proof {
            if name.len() == 1 && name[0] == 46 {
                assert(name@ =~= seq![46u8]);
            }
        }
        return Err(Error::InvalidRepository("invalid worktree name"));
    }
    let mut i: usize = 0;
    while i < name.len()
        invariant
            i <= name@.len(),
            forall|j: int| 0 <= j < i ==> name_byte(#[trigger] name@[j]),
        decreases name@.len() - i,
    {
        let b: u8 = name[i];
        if !((48 <= b && b <= 57) || (65 <= b && b <= 90) || (97 <= b && b <= 122) || b == 45 || b
            == 95 || b == 46) {
            assert(!name_byte(name@[i as int]));
            return Err(Error::InvalidRepository("invalid worktree name"));
        }
        i += 1;
    }
    proof {
        assert(valid_name(name@));
        assert forall|i: int| 0 <= i < name@.len() implies name@[i] != 47 by {
            assert(name_byte(name@[i]));
        }
        path::lemma_plain_name(name@);
    }
    Ok(())
}

} // verus!
