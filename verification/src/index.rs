//! Git directory cache (index) versions 2, 3, and 4.

use vstd::prelude::*;

use crate::bytes;
use crate::fs::path;
use crate::object::ObjectId;
use crate::sha1;
use crate::{Error, Result};

verus! {

/// The format of an index file.
#[derive(Clone, Copy, PartialEq, Eq, Debug, Structural)]
pub enum IndexVersion {
    V2,
    V3,
    V4,
}

/// The number that stands for a version.
pub open spec fn version_number(version: IndexVersion) -> u32 {
    match version {
        IndexVersion::V2 => 2,
        IndexVersion::V3 => 3,
        IndexVersion::V4 => 4,
    }
}

/// The version that a number stands for.
pub open spec fn version_of(value: nat) -> Option<IndexVersion> {
    if value == 2 {
        Some(IndexVersion::V2)
    } else if value == 3 {
        Some(IndexVersion::V3)
    } else if value == 4 {
        Some(IndexVersion::V4)
    } else {
        None
    }
}

impl IndexVersion {
    pub fn number(self) -> (r: u32)
        ensures
            r == version_number(self),
    {
        match self {
            IndexVersion::V2 => 2,
            IndexVersion::V3 => 3,
            IndexVersion::V4 => 4,
        }
    }

    pub fn try_from(value: u32) -> (r: Result<Self>)
        ensures
            match version_of(value as nat) {
                Some(version) => r == Ok::<IndexVersion, Error>(version),
                None => r == Err::<IndexVersion, Error>(
                    Error::InvalidRepository("unsupported index version"),
                ),
            },
    {
        if value == 2 {
            Ok(IndexVersion::V2)
        } else if value == 3 {
            Ok(IndexVersion::V3)
        } else if value == 4 {
            Ok(IndexVersion::V4)
        } else {
            Err(Error::InvalidRepository("unsupported index version"))
        }
    }
}

/// What was known of a file when it was staged.
#[derive(Clone, Copy, PartialEq, Eq, Debug, Structural)]
pub struct StatData {
    pub ctime_seconds: u32,
    pub ctime_nanoseconds: u32,
    pub mtime_seconds: u32,
    pub mtime_nanoseconds: u32,
    pub device: u32,
    pub inode: u32,
    pub uid: u32,
    pub gid: u32,
    pub size: u32,
}

/// Stat fields that are all zero.
pub open spec fn no_stat() -> StatData {
    StatData {
        ctime_seconds: 0,
        ctime_nanoseconds: 0,
        mtime_seconds: 0,
        mtime_nanoseconds: 0,
        device: 0,
        inode: 0,
        uid: 0,
        gid: 0,
        size: 0,
    }
}

impl Default for StatData {
    fn default() -> (r: Self)
        ensures
            r == no_stat(),
    {
        StatData {
            ctime_seconds: 0,
            ctime_nanoseconds: 0,
            mtime_seconds: 0,
            mtime_nanoseconds: 0,
            device: 0,
            inode: 0,
            uid: 0,
            gid: 0,
            size: 0,
        }
    }
}

/// What an index entry says.
#[verifier::ext_equal]
pub struct EntryModel {
    pub stat: StatData,
    pub mode: u32,
    pub id: Seq<u8>,
    pub path: Seq<u8>,
    pub stage: u8,
    pub assume_valid: bool,
    pub intent_to_add: bool,
    pub skip_worktree: bool,
}

/// The file modes that an index may hold.
pub open spec fn supported_mode(mode: u32) -> bool {
    mode == 0o100_644 || mode == 0o100_755 || mode == 0o120_000 || mode == 0o160_000 || mode
        == 0o040_000
}

/// An entry that an index may hold.
pub open spec fn sound_entry(e: EntryModel) -> bool {
    path::safe(e.path) && e.stage <= 3 && supported_mode(e.mode) && e.id.len() == 20
}

/// Whether an entry needs the second flag word.
pub open spec fn extended(e: EntryModel) -> bool {
    e.intent_to_add || e.skip_worktree
}

/// Order of entries: by path, then by stage.
pub open spec fn entry_before(a: EntryModel, b: EntryModel) -> bool {
    bytes::lex_lt(a.path, b.path) || (a.path == b.path && a.stage < b.stage)
}

/// Whether two entries stand for the same path and stage.
pub open spec fn same_key(a: EntryModel, b: EntryModel) -> bool {
    a.path == b.path && a.stage == b.stage
}

/// One path of the directory cache.
#[derive(PartialEq, Eq, Debug)]
pub struct IndexEntry {
    stat: StatData,
    mode: u32,
    id: ObjectId,
    path: Vec<u8>,
    stage: u8,
    assume_valid: bool,
    intent_to_add: bool,
    skip_worktree: bool,
}

impl View for IndexEntry {
    type V = EntryModel;

    closed spec fn view(&self) -> EntryModel {
        EntryModel {
            stat: self.stat,
            mode: self.mode,
            id: self.id@,
            path: self.path@,
            stage: self.stage,
            assume_valid: self.assume_valid,
            intent_to_add: self.intent_to_add,
            skip_worktree: self.skip_worktree,
        }
    }
}

/// What a list of entries says.
pub open spec fn models(list: Seq<IndexEntry>) -> Seq<EntryModel> {
    Seq::new(list.len(), |i: int| list[i]@)
}

impl Clone for IndexEntry {
    fn clone(&self) -> (r: Self)
        ensures
            r@ == self@,
    {
        proof {
            use_type_invariant(self);
        }
        IndexEntry {
            stat: self.stat,
            mode: self.mode,
            id: self.id,
            path: bytes::to_vec(self.path.as_slice()),
            stage: self.stage,
            assume_valid: self.assume_valid,
            intent_to_add: self.intent_to_add,
            skip_worktree: self.skip_worktree,
        }
    }
}

impl IndexEntry {
    #[verifier::type_invariant]
    spec fn inv(self) -> bool {
        sound_entry(self@)
    }

    /// Creates a stage-zero index entry.
    pub fn new(path: Vec<u8>, mode: u32, id: ObjectId, stat: StatData) -> (r: Result<Self>)
        ensures
            match staged(path@, mode, id@, stat, 0) {
                Ok(model) => r is Ok && r->Ok_0@ == model,
                Err(error) => r is Err && r->Err_0 == error,
            },
    {
        IndexEntry::with_stage(path, mode, id, stat, 0)
    }

    /// Creates an index entry at merge stage 0 to 3.
    pub fn with_stage(
        path: Vec<u8>,
        mode: u32,
        id: ObjectId,
        stat: StatData,
        stage: u8,
    ) -> (r: Result<Self>)
        ensures
            match staged(path@, mode, id@, stat, stage) {
                Ok(model) => r is Ok && r->Ok_0@ == model,
                Err(error) => r is Err && r->Err_0 == error,
            },
    {
        broadcast use ObjectId::lemma_view;

        validate_path(path.as_slice())?;
        if stage > 3 {
            return Err(Error::InvalidRepository("index stage exceeds 3"));
        }
        if !(mode == 0o100_644 || mode == 0o100_755 || mode == 0o120_000 || mode == 0o160_000
            || mode == 0o040_000) {
            return Err(Error::InvalidRepository("unsupported index mode"));
        }
        assert(id@.len() == 20);
        Ok(
            IndexEntry {
                stat,
                mode,
                id,
                path,
                stage,
                assume_valid: false,
                intent_to_add: false,
                skip_worktree: false,
            },
        )
    }

    pub fn stat(&self) -> (r: StatData)
        ensures
            r == self@.stat,
    {
        self.stat
    }

    pub fn mode(&self) -> (r: u32)
        ensures
            r == self@.mode,
            sound_entry(self@),
    {
        proof {
            use_type_invariant(self);
        }
        self.mode
    }

    pub fn id(&self) -> (r: ObjectId)
        ensures
            r@ == self@.id,
    {
        self.id
    }

    pub fn path(&self) -> (r: &[u8])
        ensures
            r@ == self@.path,
            sound_entry(self@),
    {
        proof {
            use_type_invariant(self);
        }
        self.path.as_slice()
    }

    pub fn stage(&self) -> (r: u8)
        ensures
            r == self@.stage,
            r <= 3,
    {
        proof {
            use_type_invariant(self);
        }
        self.stage
    }

    pub fn assume_valid(&self) -> (r: bool)
        ensures
            r == self@.assume_valid,
    {
        self.assume_valid
    }

    pub fn intent_to_add(&self) -> (r: bool)
        ensures
            r == self@.intent_to_add,
    {
        self.intent_to_add
    }

    pub fn skip_worktree(&self) -> (r: bool)
        ensures
            r == self@.skip_worktree,
    {
        self.skip_worktree
    }

    pub fn with_assume_valid(self, value: bool) -> (r: Self)
        ensures
            r@ == (EntryModel { assume_valid: value, ..self@ }),
    {
        proof {
            use_type_invariant(&self);
        }
        let mut entry = self;
        entry.assume_valid = value;
        entry
    }

    pub fn with_intent_to_add(self, value: bool) -> (r: Self)
        ensures
            r@ == (EntryModel { intent_to_add: value, ..self@ }),
    {
        proof {
            use_type_invariant(&self);
        }
        let mut entry = self;
        entry.intent_to_add = value;
        entry
    }

    pub fn with_skip_worktree(self, value: bool) -> (r: Self)
        ensures
            r@ == (EntryModel { skip_worktree: value, ..self@ }),
    {
        proof {
            use_type_invariant(&self);
        }
        let mut entry = self;
        entry.skip_worktree = value;
        entry
    }

    pub fn with_stat(self, value: StatData) -> (r: Self)
        ensures
            r@ == (EntryModel { stat: value, ..self@ }),
    {
        proof {
            use_type_invariant(&self);
        }
        let mut entry = self;
        entry.stat = value;
        entry
    }

    /// Sets the executable bit of a regular file and keeps everything else.
    pub fn with_executable(self, value: bool) -> (r: Result<Self>)
        ensures
            if self@.mode == 0o100_644 || self@.mode == 0o100_755 {
                r is Ok && r->Ok_0@ == (EntryModel {
                    mode: if value {
                        0o100_755
                    } else {
                        0o100_644
                    },
                    ..self@
                })
            } else {
                r is Err && r->Err_0 == Error::InvalidRepository(
                    "executable bit requires a regular-file index entry",
                )
            },
    {
        proof {
            use_type_invariant(&self);
        }
        if self.mode != 0o100_644 && self.mode != 0o100_755 {
            return Err(
                Error::InvalidRepository("executable bit requires a regular-file index entry"),
            );
        }
        let mut entry = self;
        entry.mode = if value {
            0o100_755
        } else {
            0o100_644
        };
        Ok(entry)
    }

    /// Moves the entry to another path and keeps everything else.
    pub fn with_path(self, path: Vec<u8>) -> (r: Result<Self>)
        ensures
            if path::safe(path@) {
                r is Ok && r->Ok_0@ == (EntryModel { path: path@, ..self@ })
            } else {
                r is Err && r->Err_0 == Error::InvalidRepository("unsafe index path")
            },
    {
        proof {
            use_type_invariant(&self);
        }
        validate_path(path.as_slice())?;
        let mut entry = self;
        entry.path = path;
        Ok(entry)
    }

    fn has_extended_flags(&self) -> (r: bool)
        ensures
            r == extended(self@),
    {
        self.intent_to_add || self.skip_worktree
    }
}

/// A new entry at a stage, or why it is refused.
pub open spec fn staged(
    path: Seq<u8>,
    mode: u32,
    id: Seq<u8>,
    stat: StatData,
    stage: u8,
) -> core::result::Result<EntryModel, Error> {
    if !path::safe(path) {
        Err(Error::InvalidRepository("unsafe index path"))
    } else if stage > 3 {
        Err(Error::InvalidRepository("index stage exceeds 3"))
    } else if !supported_mode(mode) {
        Err(Error::InvalidRepository("unsupported index mode"))
    } else {
        Ok(
            EntryModel {
                stat,
                mode,
                id,
                path,
                stage,
                assume_valid: false,
                intent_to_add: false,
                skip_worktree: false,
            },
        )
    }
}

/// Checks that a path may stand in an index.
pub fn validate_path(path: &[u8]) -> (r: Result<()>)
    ensures
        r == (if path::safe(path@) {
            Ok::<(), Error>(())
        } else {
            Err(Error::InvalidRepository("unsafe index path"))
        }),
{
    if path::is_safe(path) {
        Ok(())
    } else {
        Err(Error::InvalidRepository("unsafe index path"))
    }
}

// ---------------------------------------------------------------------------
// Variable-length integers

/// The leading bytes of a variable-length integer whose remaining value is
/// `n`.
pub open spec fn varint_head(n: nat) -> Seq<u8>
    decreases n,
{
    if n == 0 {
        Seq::empty()
    } else {
        varint_head(((n - 1) / 128) as nat).push((128 + (n - 1) % 128) as u8)
    }
}

/// The bytes of a variable-length integer.
pub open spec fn varint(value: nat) -> Seq<u8> {
    varint_head(value / 128).push((value % 128) as u8)
}

/// Reads a variable-length integer from byte `index` on, where the bytes
/// before it gave `value`: the number and the count of bytes, or why it is
/// refused.
pub open spec fn varint_from(data: Seq<u8>, index: int, value: int) -> core::result::Result<
    (int, int),
    Error,
>
    decreases 10 - index,
{
    if index >= 10 || index >= data.len() {
        Err(Error::InvalidRepository("unterminated v4 varint"))
    } else {
        let byte = data[index] as int;
        if index != 0 && value == u64::MAX {
            Err(Error::InvalidRepository("v4 varint overflow"))
        } else {
            let next = if index == 0 {
                byte % 128
            } else {
                (value + 1) * 128 % 0x1_0000_0000_0000_0000 + byte % 128
            };
            if byte < 128 {
                Ok((next, index + 1))
            } else {
                varint_from(data, index + 1, next)
            }
        }
    }
}

proof fn lemma_varint_head_len(n: nat, k: nat)
    requires
        n < pow128(k),
    ensures
        varint_head(n).len() <= k,
    decreases k,
{
    if n > 0 {
        if k == 0 {
            assert(false);
        }
        assert(((n - 1) / 128) < pow128((k - 1) as nat)) by {
            assert(pow128(k) == 128 * pow128((k - 1) as nat));
        }
        lemma_varint_head_len(((n - 1) / 128) as nat, (k - 1) as nat);
    }
}

pub open spec fn pow128(k: nat) -> nat
    decreases k,
{
    if k == 0 {
        1
    } else {
        128 * pow128((k - 1) as nat)
    }
}

/// Reading the leading bytes brings the reader to the remaining value.
proof fn lemma_varint_head(n: nat, tail: Seq<u8>)
    requires
        0 < n <= 0x200_0000_0000_0000,
        varint_head(n).len() <= 9,
    ensures
        varint_from(varint_head(n) + tail, 0, 0) == varint_from(
            varint_head(n) + tail,
            varint_head(n).len() as int,
            n - 1,
        ),
        varint_head(n).len() > 0,
    decreases n,
{
    let m = ((n - 1) / 128) as nat;
    let b = (128 + (n - 1) % 128) as u8;
    let data = varint_head(n) + tail;
    let at = varint_head(m).len() as int;
    assert(varint_head(n) == varint_head(m).push(b));
    assert(data[at] == b);
    if m > 0 {
        let more = seq![b] + tail;
        lemma_varint_head(m, more);
        assert(varint_head(m) + more =~= data);
        assert(varint_from(data, 0, 0) == varint_from(data, at, m - 1));
        assert((m - 1 + 1) * 128 % 0x1_0000_0000_0000_0000 == m * 128);
        assert(m * 128 + (n - 1) % 128 == n - 1);
        assert(varint_from(data, at, m - 1) == varint_from(data, at + 1, n - 1));
    } else {
        assert(n - 1 == (n - 1) % 128);
        assert(varint_from(data, 0, 0) == varint_from(data, 1, n - 1));
    }
}

/// A variable-length integer that was written is what is read back, whatever
/// follows it.
pub proof fn lemma_varint_round_trip(value: u64, tail: Seq<u8>)
    ensures
        varint_from(varint(value as nat) + tail, 0, 0) == Ok::<(int, int), Error>(
            (value as int, varint(value as nat).len() as int),
        ),
        1 <= varint(value as nat).len() <= 10,
{
    let n = value as nat / 128;
    let last = (value % 128) as u8;
    let data = varint(value as nat) + tail;
    assert(n <= 0x200_0000_0000_0000);
    assert(pow128(9) > 0x200_0000_0000_0000) by {
        reveal_with_fuel(pow128, 10);
    }
    lemma_varint_head_len(n, 9);
    let at = varint_head(n).len() as int;
    assert(data[at] == last);
    if n > 0 {
        lemma_varint_head(n, seq![last] + tail);
        assert(varint_head(n) + (seq![last] + tail) =~= data);
        assert((n - 1 + 1) * 128 % 0x1_0000_0000_0000_0000 == n * 128);
        assert(n * 128 + value as nat % 128 == value as nat);
    }
}

/// Reads a variable-length integer at the start of some bytes.
pub fn decode_varint(data: &[u8]) -> (r: Result<(u64, usize)>)
    ensures
        match varint_from(data@, 0, 0) {
            Ok((value, count)) => r is Ok && r->Ok_0.0 == value && r->Ok_0.1 == count && count
                <= data@.len(),
            Err(error) => r is Err && r->Err_0 == error,
        },
{
    let mut value: u64 = 0;
    let mut index: usize = 0;
    while index < 10 && index < data.len()
        invariant
            index <= 10,
            index <= data@.len(),
            varint_from(data@, 0, 0) == varint_from(data@, index as int, value as int),
        decreases 10 - index,
    {
        let byte: u8 = data[index];
        if index == 0 {
            value = (byte % 128) as u64;
        } else {
            if value == u64::MAX {
                return Err(Error::InvalidRepository("v4 varint overflow"));
            }
            let shifted: u64 = ((value as u128 + 1) * 128 % 0x1_0000_0000_0000_0000) as u64;
            assert(shifted % 128 == 0);
            value = shifted + (byte % 128) as u64;
        }
        index += 1;
        if byte < 128 {
            return Ok((value, index));
        }
    }
    Err(Error::InvalidRepository("unterminated v4 varint"))
}

fn push_varint_head(n: u64, output: &mut Vec<u8>)
    ensures
        final(output)@ == old(output)@ + varint_head(n as nat),
    decreases n,
{
    let ghost before = output@;
    if n > 0 {
        push_varint_head((n - 1) / 128, output);
        output.push(128 + ((n - 1) % 128) as u8);
    }
    assert(output@ =~= before + varint_head(n as nat));
}

/// Writes a variable-length integer.
pub fn encode_varint(value: u64, output: &mut Vec<u8>)
    ensures
        final(output)@ == old(output)@ + varint(value as nat),
{
    let ghost before = output@;
    push_varint_head(value / 128, output);
    output.push((value % 128) as u8);
    assert(output@ =~= before + varint(value as nat));
}

// ---------------------------------------------------------------------------
// Entries on disk

/// How many leading bytes two byte strings share.
pub open spec fn shared(a: Seq<u8>, b: Seq<u8>) -> nat
    decreases a.len(),
{
    if a.len() > 0 && b.len() > 0 && a[0] == b[0] {
        1 + shared(a.skip(1), b.skip(1))
    } else {
        0
    }
}

/// What two byte strings share stands at the start of both.
pub proof fn lemma_shared(a: Seq<u8>, b: Seq<u8>)
    ensures
        shared(a, b) <= a.len(),
        shared(a, b) <= b.len(),
        a.take(shared(a, b) as int) == b.take(shared(a, b) as int),
    decreases a.len(),
{
    if a.len() > 0 && b.len() > 0 && a[0] == b[0] {
        lemma_shared(a.skip(1), b.skip(1));
        let n = shared(a.skip(1), b.skip(1)) as int;
        assert(a.take(n + 1) =~= seq![a[0]] + a.skip(1).take(n));
        assert(b.take(n + 1) =~= seq![b[0]] + b.skip(1).take(n));
    } else {
        assert(a.take(0) =~= b.take(0));
    }
}

/// Counts the leading bytes that two byte strings share.
pub fn shared_prefix(a: &[u8], b: &[u8]) -> (r: usize)
    ensures
        r == shared(a@, b@),
        r <= a@.len(),
        r <= b@.len(),
{
    let mut i: usize = 0;
    assert(a@.skip(0) =~= a@);
    assert(b@.skip(0) =~= b@);
    while i < a.len() && i < b.len() && a[i] == b[i]
        invariant
            i <= a@.len(),
            i <= b@.len(),
            shared(a@, b@) == i + shared(a@.skip(i as int), b@.skip(i as int)),
        decreases a@.len() - i,
    {
        assert(a@.skip(i as int).skip(1) =~= a@.skip(i + 1));
        assert(b@.skip(i as int).skip(1) =~= b@.skip(i + 1));
        i += 1;
    }
    i
}

pub open spec fn word(n: u32) -> Seq<u8> {
    bytes::be_bytes(n as nat, 4)
}

/// The sixty bytes that every entry begins with.
pub open spec fn fixed_bytes(e: EntryModel) -> Seq<u8> {
    word(e.stat.ctime_seconds) + word(e.stat.ctime_nanoseconds) + word(e.stat.mtime_seconds)
        + word(e.stat.mtime_nanoseconds) + word(e.stat.device) + word(e.stat.inode) + word(e.mode)
        + word(e.stat.uid) + word(e.stat.gid) + word(e.stat.size) + e.id
}

pub open spec fn bit(value: bool, weight: nat) -> nat {
    if value {
        weight
    } else {
        0
    }
}

/// The first flag word: the length of the path up to 4095, the stage, whether
/// a second word follows, and whether the file is assumed unchanged.
pub open spec fn flags_of(e: EntryModel) -> nat {
    (if e.path.len() < 0x0fff {
        e.path.len()
    } else {
        0x0fff
    }) + e.stage as nat * 0x1000 + bit(extended(e), 0x4000) + bit(e.assume_valid, 0x8000)
}

/// The second flag word.
pub open spec fn more_flags_of(e: EntryModel) -> nat {
    bit(e.intent_to_add, 0x2000) + bit(e.skip_worktree, 0x4000)
}

/// An entry up to its path.
pub open spec fn head_bytes(e: EntryModel) -> Seq<u8> {
    fixed_bytes(e) + bytes::be_bytes(flags_of(e), 2) + (if extended(e) {
        bytes::be_bytes(more_flags_of(e), 2)
    } else {
        Seq::empty()
    })
}

pub open spec fn zeros(n: nat) -> Seq<u8> {
    Seq::new(n, |i: int| 0u8)
}

/// How many zero bytes bring a length to a multiple of eight.
pub open spec fn padding(n: nat) -> nat {
    ((8 - n % 8) % 8) as nat
}

/// An entry as it is stored after an entry with the path `previous`.
#[verifier::opaque]
pub open spec fn entry_bytes(e: EntryModel, version: IndexVersion, previous: Seq<u8>) -> Seq<u8> {
    if version is V4 {
        let common = shared(e.path, previous);
        head_bytes(e) + varint((previous.len() - common) as nat) + e.path.skip(common as int)
            + seq![0u8]
    } else {
        let raw = head_bytes(e) + e.path + seq![0u8];
        raw + zeros(padding(raw.len()))
    }
}

pub open spec fn word_at(data: Seq<u8>, at: int) -> u32 {
    bytes::be(data.subrange(at, at + 4)) as u32
}

/// The path that is stored at `cursor`, and where the entry ends.
pub open spec fn path_from(
    data: Seq<u8>,
    cursor: int,
    version: IndexVersion,
    previous: Seq<u8>,
) -> core::result::Result<(Seq<u8>, int), Error> {
    if version is V4 {
        match varint_from(data.skip(cursor), 0, 0) {
            Err(error) => Err(error),
            Ok((strip, used)) => {
                let start = cursor + used;
                let nul = bytes::index_from(data, 0, start);
                if strip > previous.len() {
                    Err(Error::InvalidRepository("v4 path strips beyond previous path"))
                } else if nul >= data.len() {
                    Err(Error::InvalidRepository("unterminated v4 index path"))
                } else {
                    Ok((previous.take(previous.len() - strip) + data.subrange(start, nul), nul + 1))
                }
            },
        }
    } else {
        let nul = bytes::index_from(data, 0, cursor);
        let end = (nul + 1) + padding((nul + 1) as nat);
        if nul >= data.len() {
            Err(Error::InvalidRepository("unterminated index path"))
        } else if end > data.len() || data.subrange(nul + 1, end) != zeros(
            padding((nul + 1) as nat),
        ) {
            Err(Error::InvalidRepository("invalid index entry padding"))
        } else {
            Ok((data.subrange(cursor, nul), end))
        }
    }
}

/// The entry at the start of some bytes and its length, or why it is refused.
#[verifier::opaque]
pub open spec fn entry_from(
    data: Seq<u8>,
    version: IndexVersion,
    previous: Seq<u8>,
) -> core::result::Result<(EntryModel, int), Error> {
    if data.len() < 62 {
        Err(Error::InvalidRepository("truncated index entry"))
    } else {
        let stat = StatData {
            ctime_seconds: word_at(data, 0),
            ctime_nanoseconds: word_at(data, 4),
            mtime_seconds: word_at(data, 8),
            mtime_nanoseconds: word_at(data, 12),
            device: word_at(data, 16),
            inode: word_at(data, 20),
            uid: word_at(data, 28),
            gid: word_at(data, 32),
            size: word_at(data, 36),
        };
        let flags = bytes::be(data.subrange(60, 62));
        let wide = flags / 0x4000 % 2 == 1;
        let more = if wide {
            bytes::be(data.subrange(62, 64))
        } else {
            0
        };
        if wide && (version is V2 || data.len() < 64) {
            Err(Error::InvalidRepository("invalid extended index flags"))
        } else if more % 0x2000 != 0 || more >= 0x8000 {
            Err(Error::InvalidRepository("unknown extended index flags"))
        } else {
            match path_from(
                data,
                if wide {
                    64
                } else {
                    62
                },
                version,
                previous,
            ) {
                Err(error) => Err(error),
                Ok((path, end)) => match staged(
                    path,
                    word_at(data, 24),
                    data.subrange(40, 60),
                    stat,
                    (flags / 0x1000 % 4) as u8,
                ) {
                    Err(error) => Err(error),
                    Ok(plain) => if flags % 0x1000 != 0x0fff && flags % 0x1000 != path.len() {
                        Err(Error::InvalidRepository("index path length flag mismatch"))
                    } else {
                        Ok(
                            (
                                EntryModel {
                                    assume_valid: flags >= 0x8000,
                                    intent_to_add: more / 0x2000 % 2 == 1,
                                    skip_worktree: more / 0x4000 % 2 == 1,
                                    ..plain
                                },
                                end,
                            ),
                        )
                    },
                },
            }
        }
    }
}

proof fn lemma_word(n: u32)
    ensures
        word(n).len() == 4,
        bytes::be(word(n)) == n,
{
    bytes::lemma_be_bytes_len(n as nat, 4);
    bytes::lemma_power256();
    bytes::lemma_be_of_bytes(n as nat, 4);
}

proof fn lemma_fixed(e: EntryModel, rest: Seq<u8>)
    requires
        e.id.len() == 20,
    ensures
        fixed_bytes(e).len() == 60,
        ({
            let data = fixed_bytes(e) + rest;
            &&& word_at(data, 0) == e.stat.ctime_seconds
            &&& word_at(data, 4) == e.stat.ctime_nanoseconds
            &&& word_at(data, 8) == e.stat.mtime_seconds
            &&& word_at(data, 12) == e.stat.mtime_nanoseconds
            &&& word_at(data, 16) == e.stat.device
            &&& word_at(data, 20) == e.stat.inode
            &&& word_at(data, 24) == e.mode
            &&& word_at(data, 28) == e.stat.uid
            &&& word_at(data, 32) == e.stat.gid
            &&& word_at(data, 36) == e.stat.size
            &&& data.subrange(40, 60) == e.id
        }),
{
    lemma_word(e.stat.ctime_seconds);
    lemma_word(e.stat.ctime_nanoseconds);
    lemma_word(e.stat.mtime_seconds);
    lemma_word(e.stat.mtime_nanoseconds);
    lemma_word(e.stat.device);
    lemma_word(e.stat.inode);
    lemma_word(e.mode);
    lemma_word(e.stat.uid);
    lemma_word(e.stat.gid);
    lemma_word(e.stat.size);
    let data = fixed_bytes(e) + rest;
    assert(data.subrange(0, 4) =~= word(e.stat.ctime_seconds));
    assert(data.subrange(4, 8) =~= word(e.stat.ctime_nanoseconds));
    assert(data.subrange(8, 12) =~= word(e.stat.mtime_seconds));
    assert(data.subrange(12, 16) =~= word(e.stat.mtime_nanoseconds));
    assert(data.subrange(16, 20) =~= word(e.stat.device));
    assert(data.subrange(20, 24) =~= word(e.stat.inode));
    assert(data.subrange(24, 28) =~= word(e.mode));
    assert(data.subrange(28, 32) =~= word(e.stat.uid));
    assert(data.subrange(32, 36) =~= word(e.stat.gid));
    assert(data.subrange(36, 40) =~= word(e.stat.size));
    assert(data.subrange(40, 60) =~= e.id);
}

proof fn lemma_half(n: nat)
    requires
        n < 0x1_0000,
    ensures
        bytes::be_bytes(n, 2).len() == 2,
        bytes::be(bytes::be_bytes(n, 2)) == n,
{
    bytes::lemma_be_bytes_len(n, 2);
    bytes::lemma_power256();
    bytes::lemma_be_of_bytes(n, 2);
}

/// A path that was stored is the path that is read back.
proof fn lemma_path_round_trip(
    e: EntryModel,
    version: IndexVersion,
    previous: Seq<u8>,
    rest: Seq<u8>,
)
    requires
        sound_entry(e),
        previous.len() <= u64::MAX,
    ensures
        path_from(
            entry_bytes(e, version, previous) + rest,
            head_bytes(e).len() as int,
            version,
            previous,
        ) == Ok::<(Seq<u8>, int), Error>(
            (e.path, entry_bytes(e, version, previous).len() as int),
        ),
{
    reveal(entry_bytes);
    let all = entry_bytes(e, version, previous);
    let data = all + rest;
    let cursor = head_bytes(e).len() as int;
    if version is V4 {
        let common = shared(e.path, previous);
        lemma_shared(e.path, previous);
        let strip = (previous.len() - common) as u64;
        let suffix = e.path.skip(common as int);
        let number = varint(strip as nat);
        let tail = suffix + seq![0u8] + rest;
        lemma_varint_round_trip(strip, tail);
        assert(data.skip(cursor) =~= number + tail);
        let start = cursor + number.len();
        let nul = start + suffix.len();
        assert forall|i: int| start <= i < nul implies data[i] != 0 by {
            assert(data[i] == e.path[common + (i - start)]);
            assert(e.path.contains(e.path[common + (i - start)]));
        }
        assert(data[nul] == 0);
        bytes::lemma_index_from_is(data, 0, start, nul);
        assert(data.subrange(start, nul) =~= suffix);
        assert(previous.take(previous.len() - strip) =~= e.path.take(common as int));
        assert(e.path.take(common as int) + suffix =~= e.path);
    } else {
        let nul = cursor + e.path.len();
        let raw = head_bytes(e) + e.path + seq![0u8];
        assert(all == raw + zeros(padding(raw.len())));
        assert forall|i: int| cursor <= i < nul implies data[i] != 0 by {
            assert(data[i] == e.path[i - cursor]);
            assert(e.path.contains(e.path[i - cursor]));
        }
        assert(data[nul] == 0);
        bytes::lemma_index_from_is(data, 0, cursor, nul);
        let end = nul + 1 + padding((nul + 1) as nat);
        assert(raw.len() == nul + 1);
        assert(data.subrange(nul + 1, end) =~= zeros(padding((nul + 1) as nat)));
        assert(data.subrange(cursor, nul) =~= e.path);
    }
}

/// What the flag words say.
proof fn lemma_flags(e: EntryModel)
    requires
        e.stage <= 3,
    ensures
        flags_of(e) < 0x1_0000,
        more_flags_of(e) < 0x8000,
        flags_of(e) / 0x4000 % 2 == bit(extended(e), 1),
        flags_of(e) / 0x1000 % 4 == e.stage,
        flags_of(e) >= 0x8000 <==> e.assume_valid,
        flags_of(e) % 0x1000 == (if e.path.len() < 0x0fff {
            e.path.len()
        } else {
            0x0fff
        }),
        more_flags_of(e) % 0x2000 == 0,
        more_flags_of(e) / 0x2000 % 2 == bit(e.intent_to_add, 1),
        more_flags_of(e) / 0x4000 % 2 == bit(e.skip_worktree, 1),
        !extended(e) ==> more_flags_of(e) == 0,
{
}

/// Where the parts of an entry's head stand.
proof fn lemma_head(e: EntryModel, tail: Seq<u8>)
    requires
        e.id.len() == 20,
        e.stage <= 3,
    ensures
        ({
            let data = head_bytes(e) + tail;
            &&& head_bytes(e).len() == (if extended(e) {
                64int
            } else {
                62int
            })
            &&& data == fixed_bytes(e) + data.skip(60)
            &&& bytes::be(data.subrange(60, 62)) == flags_of(e)
            &&& extended(e) ==> bytes::be(data.subrange(62, 64)) == more_flags_of(e)
        }),
{
    lemma_flags(e);
    lemma_half(flags_of(e));
    lemma_half(more_flags_of(e));
    lemma_fixed(e, tail);
    let data = head_bytes(e) + tail;
    assert(data =~= fixed_bytes(e) + data.skip(60));
    assert(data.subrange(60, 62) =~= bytes::be_bytes(flags_of(e), 2));
    if extended(e) {
        assert(data.subrange(62, 64) =~= bytes::be_bytes(more_flags_of(e), 2));
    }
}

/// The bytes of an entry after its head.
pub open spec fn tail_bytes(e: EntryModel, version: IndexVersion, previous: Seq<u8>) -> Seq<u8> {
    entry_bytes(e, version, previous).skip(head_bytes(e).len() as int)
}

proof fn lemma_entry_parts(e: EntryModel, version: IndexVersion, previous: Seq<u8>)
    ensures
        entry_bytes(e, version, previous) == head_bytes(e) + tail_bytes(e, version, previous),
{
    reveal(entry_bytes);
    assert(entry_bytes(e, version, previous) =~= head_bytes(e) + tail_bytes(e, version, previous));
}

/// An entry that was stored is the entry that is read back, whatever follows
/// it.
pub proof fn lemma_entry_round_trip(
    e: EntryModel,
    version: IndexVersion,
    previous: Seq<u8>,
    rest: Seq<u8>,
)
    requires
        sound_entry(e),
        !(version is V2 && extended(e)),
        previous.len() <= u64::MAX,
    ensures
        entry_from(entry_bytes(e, version, previous) + rest, version, previous) == Ok::<
            (EntryModel, int),
            Error,
        >((e, entry_bytes(e, version, previous).len() as int)),
        !(version is V4) ==> entry_bytes(e, version, previous).len() % 8 == 0,
{
    if !(version is V4) {
        lemma_entry_layout(e, version, previous);
    }
    reveal(entry_from);
    let all = entry_bytes(e, version, previous);
    let data = all + rest;
    let tail = tail_bytes(e, version, previous) + rest;
    lemma_entry_parts(e, version, previous);
    assert(data =~= head_bytes(e) + tail);
    lemma_flags(e);
    lemma_head(e, tail);
    lemma_fixed(e, data.skip(60));
    lemma_path_round_trip(e, version, previous, rest);
    let read = entry_from(data, version, previous);
    assert(read is Ok);
    assert((read->Ok_0).0 =~= e);
}

/// Reads the entry at the start of some bytes.
pub fn parse_entry(data: &[u8], version: IndexVersion, previous: &[u8]) -> (r: Result<
    (IndexEntry, usize),
>)
    ensures
        match entry_from(data@, version, previous@) {
            Ok((model, length)) => r is Ok && r->Ok_0.0@ == model && r->Ok_0.1 == length && length
                <= data@.len(),
            Err(error) => r is Err && r->Err_0 == error,
        },
{
    proof {
        reveal(entry_from);
    }
    if data.len() < 62 {
        return Err(Error::InvalidRepository("truncated index entry"));
    }
    let stat = StatData {
        ctime_seconds: bytes::read_be32(data, 0),
        ctime_nanoseconds: bytes::read_be32(data, 4),
        mtime_seconds: bytes::read_be32(data, 8),
        mtime_nanoseconds: bytes::read_be32(data, 12),
        device: bytes::read_be32(data, 16),
        inode: bytes::read_be32(data, 20),
        uid: bytes::read_be32(data, 28),
        gid: bytes::read_be32(data, 32),
        size: bytes::read_be32(data, 36),
    };
    let mode: u32 = bytes::read_be32(data, 24);
    let id = ObjectId::read(data, 40);
    let flags: u16 = bytes::read_be16(data, 60);
    let mut cursor: usize = 62;
    let mut more: u16 = 0;
    if flags / 0x4000 % 2 == 1 {
        if version == IndexVersion::V2 || data.len() < 64 {
            return Err(Error::InvalidRepository("invalid extended index flags"));
        }
        more = bytes::read_be16(data, 62);
        cursor = 64;
        if more % 0x2000 != 0 || more >= 0x8000 {
            return Err(Error::InvalidRepository("unknown extended index flags"));
        }
    }
    let (path, end) = parse_path(data, cursor, version, previous)?;
    let length: usize = path.len();
    let plain = IndexEntry::with_stage(path, mode, id, stat, (flags / 0x1000 % 4) as u8)?;
    let advertised: usize = (flags % 0x1000) as usize;
    if advertised != 0x0fff && advertised != length {
        return Err(Error::InvalidRepository("index path length flag mismatch"));
    }
    let entry = plain.with_assume_valid(flags >= 0x8000).with_intent_to_add(
        more / 0x2000 % 2 == 1,
    ).with_skip_worktree(more / 0x4000 % 2 == 1);
    Ok((entry, end))
}

/// Reads the path that is stored at `cursor`.
fn parse_path(data: &[u8], cursor: usize, version: IndexVersion, previous: &[u8]) -> (r: Result<
    (Vec<u8>, usize),
>)
    requires
        cursor <= data@.len(),
    ensures
        match path_from(data@, cursor as int, version, previous@) {
            Ok((path, end)) => r is Ok && r->Ok_0.0@ == path && r->Ok_0.1 == end && end
                <= data@.len(),
            Err(error) => r is Err && r->Err_0 == error,
        },
{
    assert(data.len() <= usize::MAX);
    if version == IndexVersion::V4 {
        let tail = &data[cursor..data.len()];
        assert(tail@ =~= data@.skip(cursor as int));
        let (strip, used) = decode_varint(tail)?;
        let start: usize = cursor + used;
        if strip > previous.len() as u64 {
            return Err(Error::InvalidRepository("v4 path strips beyond previous path"));
        }
        let keep: usize = previous.len() - strip as usize;
        let nul: usize = bytes::find_byte(data, 0, start);
        if nul == data.len() {
            return Err(Error::InvalidRepository("unterminated v4 index path"));
        }
        let mut path = bytes::copy_range(previous, 0, keep);
        bytes::append(&mut path, &data[start..nul]);
        assert(path@ =~= previous@.take(previous@.len() - strip) + data@.subrange(
            start as int,
            nul as int,
        ));
        Ok((path, nul + 1))
    } else {
        let nul: usize = bytes::find_byte(data, 0, cursor);
        if nul == data.len() {
            return Err(Error::InvalidRepository("unterminated index path"));
        }
        let fill: usize = (8 - (nul + 1) % 8) % 8;
        if fill > data.len() - (nul + 1) || !all_zero(&data[nul + 1..nul + 1 + fill]) {
            return Err(Error::InvalidRepository("invalid index entry padding"));
        }
        Ok((bytes::copy_range(data, cursor, nul), nul + 1 + fill))
    }
}

fn all_zero(data: &[u8]) -> (r: bool)
    ensures
        r == (data@ == zeros(data@.len())),
{
    let mut i: usize = 0;
    while i < data.len()
        invariant
            i <= data@.len(),
            forall|j: int| 0 <= j < i ==> data@[j] == 0,
        decreases data@.len() - i,
    {
        if data[i] != 0 {
            assert(data@[i as int] != zeros(data@.len())[i as int]);
            return false;
        }
        i += 1;
    }
    assert(data@ =~= zeros(data@.len()));
    true
}

/// Stores an entry after an entry with the path `previous`.
pub fn encode_entry(
    data: &mut Vec<u8>,
    entry: &IndexEntry,
    version: IndexVersion,
    previous: &[u8],
) -> (r: Result<()>)
    ensures
        if version is V2 && extended(entry@) {
            r is Err && r->Err_0 == Error::InvalidRepository("index v2 cannot store extended flags")
                && final(data)@ == old(data)@
        } else {
            r is Ok && final(data)@ == old(data)@ + entry_bytes(entry@, version, previous@)
        },
{
    proof {
        use_type_invariant(entry);
        reveal(entry_bytes);
    }
    let wide = entry.has_extended_flags();
    if version == IndexVersion::V2 && wide {
        return Err(Error::InvalidRepository("index v2 cannot store extended flags"));
    }
    let mut out: Vec<u8> = Vec::new();
    bytes::push_be32(&mut out, entry.stat.ctime_seconds);
    bytes::push_be32(&mut out, entry.stat.ctime_nanoseconds);
    bytes::push_be32(&mut out, entry.stat.mtime_seconds);
    bytes::push_be32(&mut out, entry.stat.mtime_nanoseconds);
    bytes::push_be32(&mut out, entry.stat.device);
    bytes::push_be32(&mut out, entry.stat.inode);
    bytes::push_be32(&mut out, entry.mode);
    bytes::push_be32(&mut out, entry.stat.uid);
    bytes::push_be32(&mut out, entry.stat.gid);
    bytes::push_be32(&mut out, entry.stat.size);
    bytes::append(&mut out, entry.id.as_bytes().as_slice());
    assert(out@ =~= fixed_bytes(entry@));
    let mut flags: u16 = if entry.path.len() < 0x0fff {
        entry.path.len() as u16
    } else {
        0x0fff
    };
    flags = flags + entry.stage as u16 * 0x1000;
    if wide {
        flags = flags + 0x4000;
    }
    if entry.assume_valid {
        flags = flags + 0x8000;
    }
    assert(flags == flags_of(entry@));
    bytes::push_be16(&mut out, flags);
    if wide {
        let mut more: u16 = 0;
        if entry.intent_to_add {
            more = more + 0x2000;
        }
        if entry.skip_worktree {
            more = more + 0x4000;
        }
        bytes::push_be16(&mut out, more);
    }
    assert(out@ =~= head_bytes(entry@));
    if version == IndexVersion::V4 {
        let common: usize = shared_prefix(entry.path.as_slice(), previous);
        encode_varint((previous.len() - common) as u64, &mut out);
        bytes::append(&mut out, &entry.path.as_slice()[common..entry.path.len()]);
        out.push(0);
        assert(out@ =~= entry_bytes(entry@, version, previous@));
    } else {
        bytes::append(&mut out, entry.path.as_slice());
        out.push(0);
        let ghost raw = head_bytes(entry@) + entry@.path + seq![0u8];
        assert(out@ =~= raw);
        let fill: usize = (8 - out.len() % 8) % 8;
        let mut k: usize = 0;
        while k < fill
            invariant
                k <= fill,
                out@ == raw + zeros(k as nat),
            decreases fill - k,
        {
            out.push(0);
            k += 1;
            assert(out@ =~= raw + zeros(k as nat));
        }
        assert(out@ =~= entry_bytes(entry@, version, previous@));
    }
    bytes::append(data, out.as_slice());
    Ok(())
}

// ---------------------------------------------------------------------------
// Order

proof fn lemma_entry_order(a: EntryModel, b: EntryModel, c: EntryModel)
    ensures
        entry_before(a, b) && entry_before(b, c) ==> entry_before(a, c),
        entry_before(a, b) || entry_before(b, a) || same_key(a, b),
        entry_before(a, b) ==> !entry_before(b, a) && !same_key(a, b),
{
    bytes::lemma_lex_total(a.path, b.path);
    if bytes::lex_lt(a.path, b.path) {
        bytes::lemma_lex_asymmetric(a.path, b.path);
    }
    if bytes::lex_lt(a.path, b.path) && bytes::lex_lt(b.path, c.path) {
        bytes::lemma_lex_transitive(a.path, b.path, c.path);
    }
    bytes::lemma_lex_irreflexive(a.path);
}

/// Entries in strictly ascending order.
pub open spec fn entries_ascend(list: Seq<EntryModel>) -> bool {
    forall|i: int, j: int|
        0 <= i < j < list.len() ==> #[trigger] entry_before(list[i], list[j])
}

/// Whether two entries of a list stand for the same path and stage.
pub open spec fn has_duplicate(list: Seq<EntryModel>) -> bool {
    exists|i: int, j: int| 0 <= i < j < list.len() && #[trigger] same_key(list[i], list[j])
}

/// Whether one list holds what another holds, in ascending order.
pub open spec fn is_sorting(sorted: Seq<EntryModel>, list: Seq<EntryModel>) -> bool {
    &&& entries_ascend(sorted)
    &&& sorted.len() == list.len()
    &&& forall|i: int| 0 <= i < list.len() ==> sorted.contains(#[trigger] list[i])
    &&& forall|i: int| 0 <= i < sorted.len() ==> list.contains(#[trigger] sorted[i])
}

fn entry_lt(a: &IndexEntry, b: &IndexEntry) -> (r: bool)
    ensures
        r == entry_before(a@, b@),
{
    if bytes::bytes_lt(a.path.as_slice(), b.path.as_slice()) {
        true
    } else {
        bytes::bytes_eq(a.path.as_slice(), b.path.as_slice()) && a.stage < b.stage
    }
}

/// Puts entries in order; `None` where two stand for the same path and stage.
fn sort_entries(entries: Vec<IndexEntry>) -> (r: Option<Vec<IndexEntry>>)
    ensures
        match r {
            Some(sorted) => is_sorting(models(sorted@), models(entries@)) && !has_duplicate(
                models(entries@),
            ),
            None => has_duplicate(models(entries@)),
        },
{
    let ghost all = models(entries@);
    let mut left = entries;
    let mut sorted: Vec<IndexEntry> = Vec::new();
    while left.len() > 0
        invariant
            all == models(entries@),
            left@.len() <= all.len(),
            models(left@) == all.take(left@.len() as int),
            entries_ascend(models(sorted@)),
            sorted@.len() == all.len() - left@.len(),
            forall|i: int|
                left@.len() <= i < all.len() ==> models(sorted@).contains(#[trigger] all[i]),
            forall|i: int|
                0 <= i < sorted@.len() ==> exists|k: int|
                    left@.len() <= k < all.len() && all[k] == #[trigger] models(sorted@)[i],
        decreases left@.len(),
    {
        let ghost k = left@.len() - 1;
        assert(models(left@)[k] == all[k]);
        let entry = match left.pop() {
            Some(entry) => entry,
            None => {
                return None;
            },
        };
        assert(models(left@) =~= all.take(k));
        assert(entry@ == all[k]);
        let ghost before = models(sorted@);
        let mut at: usize = 0;
        while at < sorted.len() && entry_lt(&sorted[at], &entry)
            invariant
                at <= sorted@.len(),
                before == models(sorted@),
                forall|i: int| 0 <= i < at ==> entry_before(#[trigger] before[i], entry@),
            decreases sorted@.len() - at,
        {
            assert(before[at as int] == sorted@[at as int]@);
            at += 1;
        }
        if at < sorted.len() && !entry_lt(&entry, &sorted[at]) {
            proof {
                assert(before[at as int] == sorted@[at as int]@);
                lemma_entry_order(entry@, before[at as int], entry@);
                let m = choose|m: int| k + 1 <= m < all.len() && all[m] == before[at as int];
                assert(same_key(all[k], all[m]));
            }
            return None;
        }
        proof {
            assert forall|i: int| at <= i < before.len() implies entry_before(
                entry@,
                #[trigger] before[i],
            ) by {
                assert(before[at as int] == sorted@[at as int]@);
                if i > at {
                    assert(entry_before(before[at as int], before[i]));
                    lemma_entry_order(entry@, before[at as int], before[i]);
                }
            }
        }
        sorted.insert(at, entry);
        proof {
            let after = models(sorted@);
            assert(after =~= before.insert(at as int, entry@));
            assert forall|i: int, j: int| 0 <= i < j < after.len() implies #[trigger] entry_before(
                after[i],
                after[j],
            ) by {
                let oi = if i < at {
                    i
                } else {
                    i - 1
                };
                let oj = if j < at {
                    j
                } else {
                    j - 1
                };
                if i == at {
                    assert(after[j] == before[oj]);
                } else if j == at {
                    assert(after[i] == before[oi]);
                } else {
                    assert(after[i] == before[oi] && after[j] == before[oj]);
                }
            }
            assert forall|i: int| k <= i < all.len() implies after.contains(#[trigger] all[i]) by {
                if i == k {
                    assert(after[at as int] == all[k]);
                } else {
                    let m = before.index_of(all[i]);
                    assert(before[m] == all[i]);
                    assert(after[if m < at {
                        m
                    } else {
                        m + 1
                    }] == all[i]);
                }
            }
            assert forall|i: int| 0 <= i < after.len() implies exists|m: int|
                k <= m < all.len() && all[m] == #[trigger] after[i] by {
                if i == at {
                    assert(all[k] == after[i]);
                } else {
                    let oi = if i < at {
                        i
                    } else {
                        i - 1
                    };
                    assert(after[i] == before[oi]);
                    let m = choose|m: int| k + 1 <= m < all.len() && all[m] == before[oi];
                    assert(all[m] == after[i]);
                }
            }
        }
    }
    proof {
        let done = models(sorted@);
        assert forall|i: int| 0 <= i < done.len() implies all.contains(#[trigger] done[i]) by {
            let m = choose|m: int| 0 <= m < all.len() && all[m] == done[i];
            assert(all[m] == done[i]);
        }
        lemma_sorting_distinct(done, all);
    }
    Some(sorted)
}

/// A list that can be sorted strictly has no duplicates.
proof fn lemma_sorting_distinct(sorted: Seq<EntryModel>, list: Seq<EntryModel>)
    requires
        is_sorting(sorted, list),
    ensures
        !has_duplicate(list),
{
    if has_duplicate(list) {
        let (i, j) = choose|i: int, j: int|
            0 <= i < j < list.len() && #[trigger] same_key(list[i], list[j]);
        let a = sorted.index_of(list[i]);
        let b = sorted.index_of(list[j]);
        assert(sorted.contains(list[i]) && sorted.contains(list[j]));
        if a != b {
            if a < b {
                assert(entry_before(sorted[a], sorted[b]));
            } else {
                assert(entry_before(sorted[b], sorted[a]));
            }
            lemma_entry_order(list[i], list[j], list[i]);
            lemma_entry_order(list[j], list[i], list[j]);
        } else {
            lemma_pigeonhole(sorted, list, i, j);
        }
    }
}

/// A list of `n` entries that covers `n` different entries has no two alike.
proof fn lemma_pigeonhole(sorted: Seq<EntryModel>, list: Seq<EntryModel>, i: int, j: int)
    requires
        entries_ascend(sorted),
        sorted.len() == list.len(),
        0 <= i < j < list.len(),
        forall|k: int| 0 <= k < sorted.len() ==> list.contains(#[trigger] sorted[k]),
    ensures
        list[i] != list[j],
{
    if list[i] == list[j] {
        lemma_too_few(sorted, list, i, j);
    }
}

proof fn lemma_too_few(sorted: Seq<EntryModel>, list: Seq<EntryModel>, i: int, j: int)
    requires
        entries_ascend(sorted),
        0 <= i < j < list.len(),
        list[i] == list[j],
        forall|k: int| 0 <= k < sorted.len() ==> list.contains(#[trigger] sorted[k]),
    ensures
        sorted.len() < list.len(),
{
    let short = list.remove(j);
    assert forall|k: int| 0 <= k < sorted.len() implies short.contains(#[trigger] sorted[k]) by {
        let m = list.index_of(sorted[k]);
        assert(list[m] == sorted[k]);
        if m < j {
            assert(short[m] == sorted[k]);
        } else if m > j {
            assert(short[m - 1] == sorted[k]);
        } else {
            assert(short[i] == sorted[k]);
        }
    }
    assert(sorted.no_duplicates()) by {
        assert forall|a: int, b: int|
            0 <= a < sorted.len() && 0 <= b < sorted.len() && a != b implies sorted[a]
            != sorted[b] by {
            lemma_entry_order(sorted[a], sorted[b], sorted[a]);
            if a < b {
                assert(entry_before(sorted[a], sorted[b]));
            } else {
                assert(entry_before(sorted[b], sorted[a]));
                lemma_entry_order(sorted[b], sorted[a], sorted[b]);
            }
        }
    }
    sorted.unique_seq_to_set();
    short.lemma_cardinality_of_set();
    assert(sorted.to_set().subset_of(short.to_set())) by {
        assert forall|x: EntryModel| sorted.to_set().contains(x) implies short.to_set().contains(
            x,
        ) by {
            let k = sorted.index_of(x);
            assert(short.contains(sorted[k]));
        }
    }
    vstd::set_lib::lemma_len_subset(sorted.to_set(), short.to_set());
}

// ---------------------------------------------------------------------------
// The index file

pub open spec fn is_letter(b: u8) -> bool {
    65 <= b <= 90 || 97 <= b <= 122
}

pub open spec fn all_letters(s: Seq<u8>) -> bool {
    forall|i: int| 0 <= i < s.len() ==> is_letter(#[trigger] s[i])
}

/// A named block of data that follows the entries.
#[derive(PartialEq, Eq, Debug)]
pub struct IndexExtension {
    signature: [u8; 4],
    data: Vec<u8>,
}

impl View for IndexExtension {
    type V = (Seq<u8>, Seq<u8>);

    /// The signature and the data.
    closed spec fn view(&self) -> (Seq<u8>, Seq<u8>) {
        (self.signature@, self.data@)
    }
}

pub open spec fn extension_views(list: Seq<IndexExtension>) -> Seq<(Seq<u8>, Seq<u8>)> {
    Seq::new(list.len(), |i: int| list[i]@)
}

impl Clone for IndexExtension {
    fn clone(&self) -> (r: Self)
        ensures
            r@ == self@,
    {
        proof {
            use_type_invariant(self);
        }
        IndexExtension { signature: self.signature, data: bytes::to_vec(self.data.as_slice()) }
    }
}

impl IndexExtension {
    #[verifier::type_invariant]
    spec fn inv(self) -> bool {
        all_letters(self.signature@)
    }

    /// Creates an extension with its four-letter signature.
    pub fn new(signature: [u8; 4], data: Vec<u8>) -> (r: Result<Self>)
        ensures
            if all_letters(signature@) {
                r is Ok && r->Ok_0@ == (signature@, data@)
            } else {
                r is Err && r->Err_0 == Error::InvalidRepository(
                    "invalid index extension signature",
                )
            },
    {
        let mut i: usize = 0;
        while i < 4
            invariant
                i <= 4,
                forall|j: int| 0 <= j < i ==> is_letter(#[trigger] signature@[j]),
            decreases 4 - i,
        {
            let b: u8 = signature[i];
            if !((65 <= b && b <= 90) || (97 <= b && b <= 122)) {
                assert(!is_letter(signature@[i as int]));
                return Err(Error::InvalidRepository("invalid index extension signature"));
            }
            i += 1;
        }
        Ok(IndexExtension { signature, data })
    }

    pub fn signature(&self) -> (r: &[u8; 4])
        ensures
            r@ == self@.0,
            all_letters(r@),
    {
        proof {
            use_type_invariant(self);
        }
        &self.signature
    }

    pub fn data(&self) -> (r: &[u8])
        ensures
            r@ == self@.1,
    {
        self.data.as_slice()
    }
}

/// What an index says.
#[verifier::ext_equal]
pub struct IndexModel {
    pub version: IndexVersion,
    pub entries: Seq<EntryModel>,
    pub extensions: Seq<(Seq<u8>, Seq<u8>)>,
}

/// An index that can be kept: sound entries in order, and no second flag word
/// in version 2.
pub open spec fn sound_index(m: IndexModel) -> bool {
    &&& entries_ascend(m.entries)
    &&& forall|i: int| 0 <= i < m.entries.len() ==> sound_entry(#[trigger] m.entries[i])
    &&& m.version is V2 ==> forall|i: int|
        0 <= i < m.entries.len() ==> !extended(#[trigger] m.entries[i])
    &&& forall|i: int|
        0 <= i < m.extensions.len() ==> (#[trigger] m.extensions[i]).0.len() == 4 && all_letters(
            m.extensions[i].0,
        )
}

/// The directory cache.
#[derive(PartialEq, Eq, Debug)]
pub struct Index {
    version: IndexVersion,
    entries: Vec<IndexEntry>,
    extensions: Vec<IndexExtension>,
}

impl View for Index {
    type V = IndexModel;

    closed spec fn view(&self) -> IndexModel {
        IndexModel {
            version: self.version,
            entries: models(self.entries@),
            extensions: extension_views(self.extensions@),
        }
    }
}

/// An index without entries.
pub open spec fn empty_index() -> IndexModel {
    IndexModel { version: IndexVersion::V2, entries: Seq::empty(), extensions: Seq::empty() }
}

impl Default for Index {
    fn default() -> (r: Self)
        ensures
            r@ == empty_index(),
    {
        let r = Index { version: IndexVersion::V2, entries: Vec::new(), extensions: Vec::new() };
        assert(r@.entries =~= Seq::empty());
        assert(r@.extensions =~= Seq::empty());
        r
    }
}

/// Whether entries can form an index of a version.
pub open spec fn wide_in_v2(version: IndexVersion, list: Seq<EntryModel>) -> bool {
    version is V2 && exists|i: int| 0 <= i < list.len() && extended(#[trigger] list[i])
}

/// The index of some entries, or why they are refused.
pub open spec fn forms_index(
    r: Result<Index>,
    version: IndexVersion,
    list: Seq<EntryModel>,
    extensions: Seq<(Seq<u8>, Seq<u8>)>,
) -> bool {
    if has_duplicate(list) {
        r is Err && r->Err_0 == Error::InvalidRepository("duplicate index path and stage")
    } else if wide_in_v2(version, list) {
        r is Err && r->Err_0 == Error::InvalidRepository(
            "index v2 cannot store extended entry flags",
        )
    } else {
        r is Ok && r->Ok_0@.version == version && is_sorting(r->Ok_0@.entries, list)
            && r->Ok_0@.extensions == extensions
    }
}

fn entries_sound(entries: &Vec<IndexEntry>)
    ensures
        forall|i: int| 0 <= i < entries@.len() ==> sound_entry(#[trigger] models(entries@)[i]),
{
    let mut i: usize = 0;
    while i < entries.len()
        invariant
            i <= entries@.len(),
            forall|j: int| 0 <= j < i ==> sound_entry(#[trigger] models(entries@)[j]),
        decreases entries@.len() - i,
    {
        let _mode: u32 = entries[i].mode();
        i += 1;
    }
}

fn extensions_sound(extensions: &Vec<IndexExtension>)
    ensures
        forall|i: int|
            0 <= i < extensions@.len() ==> (#[trigger] extension_views(extensions@)[i]).0.len() == 4
                && all_letters(extension_views(extensions@)[i].0),
{
    let mut i: usize = 0;
    while i < extensions.len()
        invariant
            i <= extensions@.len(),
            forall|j: int|
                0 <= j < i ==> (#[trigger] extension_views(extensions@)[j]).0.len() == 4
                    && all_letters(extension_views(extensions@)[j].0),
        decreases extensions@.len() - i,
    {
        let _signature = extensions[i].signature();
        i += 1;
    }
}

impl Index {
    #[verifier::type_invariant]
    spec fn inv(self) -> bool {
        sound_index(self@)
    }

    /// Creates a sorted index without extensions.
    pub fn new(version: IndexVersion, entries: Vec<IndexEntry>) -> (r: Result<Self>)
        ensures
            forms_index(r, version, models(entries@), Seq::empty()),
    {
        let index = Index::assemble(version, entries, Vec::new());
        assert(extension_views(Seq::<IndexExtension>::empty()) =~= Seq::empty());
        index
    }

    fn assemble(
        version: IndexVersion,
        entries: Vec<IndexEntry>,
        extensions: Vec<IndexExtension>,
    ) -> (r: Result<Self>)
        ensures
            forms_index(r, version, models(entries@), extension_views(extensions@)),
    {
        let ghost list = models(entries@);
        let sorted = match sort_entries(entries) {
            Some(sorted) => sorted,
            None => return Err(Error::InvalidRepository("duplicate index path and stage")),
        };
        let ghost done = models(sorted@);
        if version == IndexVersion::V2 {
            let mut i: usize = 0;
            while i < sorted.len()
                invariant
                    i <= sorted@.len(),
                    version is V2,
                    done == models(sorted@),
                    is_sorting(done, list),
                    !has_duplicate(list),
                    list == models(entries@),
                    forall|j: int| 0 <= j < i ==> !extended(#[trigger] done[j]),
                decreases sorted@.len() - i,
            {
                assert(done[i as int] == sorted@[i as int]@);
                if sorted[i].has_extended_flags() {
                    assert(list.contains(done[i as int]));
                    let ghost k = list.index_of(done[i as int]);
                    assert(extended(list[k]));
                    return Err(
                        Error::InvalidRepository("index v2 cannot store extended entry flags"),
                    );
                }
                i += 1;
            }
            assert(!wide_in_v2(version, list)) by {
                assert forall|k: int| 0 <= k < list.len() implies !extended(#[trigger] list[k]) by {
                    let j = done.index_of(list[k]);
                    assert(done.contains(list[k]));
                    assert(!extended(done[j]));
                }
            }
        }
        entries_sound(&sorted);
        extensions_sound(&extensions);
        Ok(Index { version, entries: sorted, extensions })
    }

    pub fn version(&self) -> (r: IndexVersion)
        ensures
            r == self@.version,
    {
        self.version
    }

    pub fn entries(&self) -> (r: &[IndexEntry])
        ensures
            models(r@) == self@.entries,
            sound_index(self@),
    {
        proof {
            use_type_invariant(self);
        }
        self.entries.as_slice()
    }

    pub fn extensions(&self) -> (r: &[IndexExtension])
        ensures
            extension_views(r@) == self@.extensions,
    {
        self.extensions.as_slice()
    }

    /// The same index with one more extension.
    pub fn with_extension(self, extension: IndexExtension) -> (r: Self)
        ensures
            r@ == (IndexModel { extensions: self@.extensions.push(extension@), ..self@ }),
    {
        proof {
            use_type_invariant(&self);
        }
        let version = self.version;
        let entries = copy_entries(self.entries.as_slice());
        let mut extensions = copy_extensions(self.extensions.as_slice());
        extensions.push(extension);
        extensions_sound(&extensions);
        let r = Index { version, entries, extensions };
        assert(r@.extensions =~= self@.extensions.push(extension@));
        r
    }

    /// Replaces the entries and keeps the extensions.
    pub fn with_entries(self, entries: Vec<IndexEntry>) -> (r: Result<Self>)
        ensures
            forms_index(r, self@.version, models(entries@), self@.extensions),
    {
        let extensions = copy_extensions(self.extensions.as_slice());
        Index::assemble(self.version, entries, extensions)
    }

    /// Replaces the version and the entries and keeps the extensions.
    pub fn with_version_and_entries(
        self,
        version: IndexVersion,
        entries: Vec<IndexEntry>,
    ) -> (r: Result<Self>)
        ensures
            forms_index(r, version, models(entries@), self@.extensions),
    {
        let extensions = copy_extensions(self.extensions.as_slice());
        Index::assemble(version, entries, extensions)
    }
}

fn copy_entries(entries: &[IndexEntry]) -> (r: Vec<IndexEntry>)
    ensures
        models(r@) == models(entries@),
{
    let mut out: Vec<IndexEntry> = Vec::new();
    let mut i: usize = 0;
    while i < entries.len()
        invariant
            i <= entries@.len(),
            models(out@) == models(entries@).take(i as int),
        decreases entries@.len() - i,
    {
        let ghost before = models(out@);
        out.push(entries[i].clone());
        i += 1;
        assert(models(out@) =~= before.push(entries@[i - 1]@));
        assert(models(entries@).take(i as int) =~= before.push(entries@[i - 1]@));
    }
    assert(models(entries@).take(i as int) =~= models(entries@));
    out
}

fn copy_extensions(list: &[IndexExtension]) -> (r: Vec<IndexExtension>)
    ensures
        extension_views(r@) == extension_views(list@),
{
    let mut out: Vec<IndexExtension> = Vec::new();
    let mut i: usize = 0;
    while i < list.len()
        invariant
            i <= list@.len(),
            extension_views(out@) == extension_views(list@).take(i as int),
        decreases list@.len() - i,
    {
        let ghost before = extension_views(out@);
        out.push(list[i].clone());
        i += 1;
        assert(extension_views(out@) =~= before.push(list@[i - 1]@));
        assert(extension_views(list@).take(i as int) =~= before.push(list@[i - 1]@));
    }
    assert(extension_views(list@).take(i as int) =~= extension_views(list@));
    out
}

impl Clone for Index {
    fn clone(&self) -> (r: Self)
        ensures
            r@ == self@,
    {
        proof {
            use_type_invariant(self);
        }
        Index {
            version: self.version,
            entries: copy_entries(self.entries.as_slice()),
            extensions: copy_extensions(self.extensions.as_slice()),
        }
    }
}

/// The path of the entry before place `n`.
pub open spec fn path_before(list: Seq<EntryModel>, n: int) -> Seq<u8> {
    if n <= 0 {
        Seq::empty()
    } else {
        list[n - 1].path
    }
}

/// The first `n` entries as they are stored.
pub open spec fn entries_bytes(list: Seq<EntryModel>, version: IndexVersion, n: int) -> Seq<u8>
    decreases n,
{
    if n <= 0 {
        Seq::empty()
    } else {
        entries_bytes(list, version, n - 1) + entry_bytes(
            list[n - 1],
            version,
            path_before(list, n - 1),
        )
    }
}

/// An extension as it is stored.
pub open spec fn extension_bytes(extension: (Seq<u8>, Seq<u8>)) -> Seq<u8> {
    extension.0 + bytes::be_bytes(extension.1.len(), 4) + extension.1
}

/// Extensions from place `n` on as they are stored.
pub open spec fn extensions_bytes(list: Seq<(Seq<u8>, Seq<u8>)>, n: int) -> Seq<u8>
    decreases list.len() - n,
{
    if n < 0 || n >= list.len() {
        Seq::empty()
    } else {
        extension_bytes(list[n]) + extensions_bytes(list, n + 1)
    }
}

/// The index file without its checksum.
pub open spec fn payload_bytes(m: IndexModel) -> Seq<u8> {
    bytes::utf8("DIRC"@) + bytes::be_bytes(version_number(m.version) as nat, 4) + bytes::be_bytes(
        m.entries.len(),
        4,
    ) + entries_bytes(m.entries, m.version, m.entries.len() as int) + extensions_bytes(
        m.extensions,
        0,
    )
}

/// The index file.
pub open spec fn index_bytes(m: IndexModel) -> Seq<u8> {
    payload_bytes(m) + sha1::sha1(payload_bytes(m))
}

pub open spec fn too_large(m: IndexModel) -> bool {
    exists|i: int| 0 <= i < m.extensions.len() && (#[trigger] m.extensions[i]).1.len() > u32::MAX
}

/// The first `n` entries of a payload and where they end, or why they are
/// refused.
pub open spec fn entries_from(payload: Seq<u8>, version: IndexVersion, n: int) -> core::result::Result<
    (Seq<EntryModel>, int),
    Error,
>
    decreases n,
{
    if n <= 0 {
        Ok((Seq::empty(), 12))
    } else {
        match entries_from(payload, version, n - 1) {
            Err(error) => Err(error),
            Ok((list, cursor)) => match entry_from(
                payload.skip(cursor),
                version,
                path_before(list, list.len() as int),
            ) {
                Err(error) => Err(error),
                Ok((entry, length)) => Ok((list.push(entry), cursor + length)),
            },
        }
    }
}

/// Whether a reader may pass over an extension that it does not know.
pub open spec fn required_extension(signature: Seq<u8>) -> bool {
    97 <= signature[0] <= 122 && signature != bytes::utf8("sdir"@)
}

/// Puts results in front of further results.
pub open spec fn prepend<T>(
    done: Seq<T>,
    rest: core::result::Result<Seq<T>, Error>,
) -> core::result::Result<Seq<T>, Error> {
    match rest {
        Ok(list) => Ok(done + list),
        Err(error) => Err(error),
    }
}

/// The extensions of a payload from `cursor` on, or why they are refused.
pub open spec fn extensions_from(payload: Seq<u8>, cursor: int) -> core::result::Result<
    Seq<(Seq<u8>, Seq<u8>)>,
    Error,
>
    decreases payload.len() - cursor,
{
    if cursor >= payload.len() {
        Ok(Seq::empty())
    } else if payload.len() - cursor < 8 {
        Err(Error::InvalidRepository("truncated index extension"))
    } else {
        let signature = payload.subrange(cursor, cursor + 4);
        let size = bytes::be(payload.subrange(cursor + 4, cursor + 8)) as int;
        if signature == bytes::utf8("link"@) {
            Err(
                Error::InvalidRepository("split-index link extension requires base-index merging"),
            )
        } else if required_extension(signature) {
            Err(Error::InvalidRepository("unknown required index extension"))
        } else if cursor + 8 + size > payload.len() {
            Err(Error::InvalidRepository("truncated index extension data"))
        } else if !all_letters(signature) {
            Err(Error::InvalidRepository("invalid index extension signature"))
        } else {
            prepend(
                seq![(signature, payload.subrange(cursor + 8, cursor + 8 + size))],
                extensions_from(payload, cursor + 8 + size),
            )
        }
    }
}

/// The index that a file holds, or why the file is refused.
pub open spec fn index_from(data: Seq<u8>) -> core::result::Result<IndexModel, Error> {
    let payload = data.take(data.len() - 20);
    if data.len() < 32 || data.take(4) != bytes::utf8("DIRC"@) {
        Err(Error::InvalidRepository("invalid index header"))
    } else if sha1::sha1(payload) != data.skip(data.len() - 20) {
        Err(Error::InvalidRepository("index checksum mismatch"))
    } else {
        match version_of(bytes::be(data.subrange(4, 8))) {
            None => Err(Error::InvalidRepository("unsupported index version")),
            Some(version) => match entries_from(
                payload,
                version,
                bytes::be(data.subrange(8, 12)) as int,
            ) {
                Err(error) => Err(error),
                Ok((entries, cursor)) => if has_duplicate(entries) {
                    Err(Error::InvalidRepository("duplicate index path and stage"))
                } else if !entries_ascend(entries) {
                    Err(Error::InvalidRepository("index entries are not sorted"))
                } else {
                    match extensions_from(payload, cursor) {
                        Err(error) => Err(error),
                        Ok(extensions) => Ok(IndexModel { version, entries, extensions }),
                    }
                },
            },
        }
    }
}

proof fn lemma_entries_from_err(payload: Seq<u8>, version: IndexVersion, i: int, n: int)
    requires
        0 <= i <= n,
        entries_from(payload, version, i) is Err,
    ensures
        entries_from(payload, version, n) == entries_from(payload, version, i),
    decreases n,
{
    if i < n {
        lemma_entries_from_err(payload, version, i, n - 1);
    }
}

/// An entry without the second flag word is read from version 2 only.
proof fn lemma_entries_narrow(payload: Seq<u8>, n: int)
    requires
        entries_from(payload, IndexVersion::V2, n) is Ok,
    ensures
        forall|i: int|
            0 <= i < (entries_from(payload, IndexVersion::V2, n)->Ok_0).0.len() ==> !extended(
                #[trigger] (entries_from(payload, IndexVersion::V2, n)->Ok_0).0[i],
            ),
    decreases n,
{
    reveal(entry_from);
    if n > 0 {
        lemma_entries_narrow(payload, n - 1);
    }
}

proof fn lemma_ascend_no_duplicate(list: Seq<EntryModel>)
    requires
        entries_ascend(list),
    ensures
        !has_duplicate(list),
{
    assert forall|i: int, j: int| 0 <= i < j < list.len() implies !#[trigger] same_key(
        list[i],
        list[j],
    ) by {
        assert(entry_before(list[i], list[j]));
        lemma_entry_order(list[i], list[j], list[i]);
    }
}

/// An ascending list is its own sorting and no other.
proof fn lemma_sorting_unique(a: Seq<EntryModel>, b: Seq<EntryModel>)
    requires
        is_sorting(a, b),
        entries_ascend(b),
    ensures
        a == b,
    decreases a.len(),
{
    if a.len() > 0 {
        assert(b.contains(a[0]));
        assert(a.contains(b[0]));
        let k = b.index_of(a[0]);
        let l = a.index_of(b[0]);
        if k > 0 {
            assert(entry_before(b[0], b[k]));
            if l > 0 {
                assert(entry_before(a[0], a[l]));
            }
            lemma_entry_order(a[0], b[0], a[0]);
        }
        assert(a[0] == b[0]);
        let a1 = a.skip(1);
        let b1 = b.skip(1);
        assert forall|i: int, j: int| 0 <= i < j < a1.len() implies #[trigger] entry_before(
            a1[i],
            a1[j],
        ) by {
            assert(entry_before(a[i + 1], a[j + 1]));
        }
        assert forall|i: int, j: int| 0 <= i < j < b1.len() implies #[trigger] entry_before(
            b1[i],
            b1[j],
        ) by {
            assert(entry_before(b[i + 1], b[j + 1]));
        }
        assert forall|i: int| 0 <= i < b1.len() implies a1.contains(#[trigger] b1[i]) by {
            assert(b1[i] == b[i + 1]);
            let m = a.index_of(b[i + 1]);
            assert(a.contains(b[i + 1]));
            assert(entry_before(b[0], b[i + 1]));
            lemma_entry_order(b[0], b[i + 1], b[0]);
            assert(m != 0);
            assert(a1[m - 1] == b1[i]);
        }
        assert forall|i: int| 0 <= i < a1.len() implies b1.contains(#[trigger] a1[i]) by {
            assert(a1[i] == a[i + 1]);
            let m = b.index_of(a[i + 1]);
            assert(b.contains(a[i + 1]));
            assert(entry_before(a[0], a[i + 1]));
            lemma_entry_order(a[0], a[i + 1], a[0]);
            assert(m != 0);
            assert(b1[m - 1] == a1[i]);
        }
        lemma_sorting_unique(a1, b1);
        assert(a =~= seq![a[0]] + a1);
        assert(b =~= seq![b[0]] + b1);
    } else {
        assert(a =~= b);
    }
}

fn list_has_duplicate(entries: &Vec<IndexEntry>) -> (r: bool)
    ensures
        r == has_duplicate(models(entries@)),
{
    sort_entries(copy_entries(entries.as_slice())).is_none()
}

fn list_ascends(entries: &Vec<IndexEntry>) -> (r: bool)
    ensures
        r == entries_ascend(models(entries@)),
{
    let ghost list = models(entries@);
    let mut i: usize = 1;
    while i < entries.len()
        invariant
            1 <= i,
            i <= entries@.len() || entries@.len() == 0,
            list == models(entries@),
            forall|a: int, b: int|
                0 <= a < b < i && b < list.len() ==> #[trigger] entry_before(list[a], list[b]),
        decreases entries@.len() - i,
    {
        assert(list[i - 1] == entries@[i - 1]@ && list[i as int] == entries@[i as int]@);
        if !entry_lt(&entries[i - 1], &entries[i]) {
            assert(!entry_before(list[i - 1], list[i as int]));
            return false;
        }
        assert forall|a: int, b: int| 0 <= a < b < i + 1 && b < list.len() implies
            #[trigger] entry_before(list[a], list[b]) by {
            if b == i && a < i - 1 {
                assert(entry_before(list[a], list[i - 1]));
                lemma_entry_order(list[a], list[i - 1], list[i as int]);
            }
        }
        i += 1;
    }
    true
}

impl Index {
    /// Decodes and checks an index file.
    pub fn parse(data: &[u8]) -> (r: Result<Self>)
        ensures
            match index_from(data@) {
                Ok(model) => r is Ok && r->Ok_0@ == model,
                Err(error) => r is Err && r->Err_0 == error,
            },
    {
        if data.len() < 32 {
            return Err(Error::InvalidRepository("invalid index header"));
        }
        let magic = &data[0..4];
        assert(magic@ =~= data@.take(4));
        if !bytes::bytes_eq(magic, "DIRC".as_bytes()) {
            return Err(Error::InvalidRepository("invalid index header"));
        }
        let end: usize = data.len() - 20;
        let payload = &data[0..end];
        let trailer = &data[end..data.len()];
        assert(payload@ =~= data@.take(data@.len() - 20));
        assert(trailer@ =~= data@.skip(data@.len() - 20));
        if !bytes::bytes_eq(sha1::digest(payload).as_slice(), trailer) {
            return Err(Error::InvalidRepository("index checksum mismatch"));
        }
        let version = IndexVersion::try_from(bytes::read_be32(data, 4))?;
        let count: u32 = bytes::read_be32(data, 8);
        let mut cursor: usize = 12;
        let mut entries: Vec<IndexEntry> = Vec::new();
        let mut previous: Vec<u8> = Vec::new();
        let mut n: u32 = 0;
        assert(models(entries@) =~= Seq::empty());
        assert(previous@ =~= Seq::<u8>::empty());
        while n < count
            invariant
                n <= count,
                data@.len() >= 32,
                data@.take(4) == bytes::utf8("DIRC"@),
                payload@ == data@.take(data@.len() - 20),
                sha1::sha1(payload@) == data@.skip(data@.len() - 20),
                version_of(bytes::be(data@.subrange(4, 8))) == Some(version),
                count == bytes::be(data@.subrange(8, 12)),
                cursor <= payload@.len(),
                entries_from(payload@, version, n as int) == Ok::<(Seq<EntryModel>, int), Error>(
                    (models(entries@), cursor as int),
                ),
                previous@ == path_before(models(entries@), models(entries@).len() as int),
                models(entries@).len() == n,
            decreases count - n,
        {
            let tail = &payload[cursor..payload.len()];
            assert(tail@ =~= payload@.skip(cursor as int));
            let ghost before = models(entries@);
            match parse_entry(tail, version, previous.as_slice()) {
                Err(error) => {
                    proof {
                        lemma_entries_from_err(payload@, version, n + 1, count as int);
                    }
                    return Err(error);
                },
                Ok((entry, length)) => {
                    previous = bytes::to_vec(entry.path.as_slice());
                    cursor = cursor + length;
                    entries.push(entry);
                    assert(models(entries@) =~= before.push(entry@));
                },
            }
            n = n + 1;
        }
        if list_has_duplicate(&entries) {
            return Err(Error::InvalidRepository("duplicate index path and stage"));
        }
        if !list_ascends(&entries) {
            return Err(Error::InvalidRepository("index entries are not sorted"));
        }
        let extensions = parse_extensions(payload, cursor)?;
        entries_sound(&entries);
        extensions_sound(&extensions);
        proof {
            if version is V2 {
                lemma_entries_narrow(payload@, count as int);
            }
        }
        Ok(Index { version, entries, extensions })
    }

    /// Encodes the entries, the extensions and the checksum.
    pub fn encode(&self) -> (r: Result<Vec<u8>>)
        ensures
            if self@.entries.len() > u32::MAX {
                r is Err && r->Err_0 == Error::InvalidRepository("too many index entries")
            } else if too_large(self@) {
                r is Err && r->Err_0 == Error::InvalidRepository("index extension is too large")
            } else {
                r is Ok && r->Ok_0@ == index_bytes(self@)
            },
    {
        proof {
            use_type_invariant(self);
        }
        let ghost list = self@.entries;
        if self.entries.len() as u64 > u32::MAX as u64 {
            return Err(Error::InvalidRepository("too many index entries"));
        }
        let mut data: Vec<u8> = Vec::new();
        bytes::append(&mut data, "DIRC".as_bytes());
        bytes::push_be32(&mut data, self.version.number());
        bytes::push_be32(&mut data, self.entries.len() as u32);
        let ghost header = data@;
        let mut i: usize = 0;
        assert(data@ =~= header + entries_bytes(list, self.version, 0));
        while i < self.entries.len()
            invariant
                i <= self.entries@.len(),
                list == models(self.entries@),
                list == self@.entries,
                sound_index(self@),
                self.version == self@.version,
                list.len() <= u32::MAX,
                data@ == header + entries_bytes(list, self.version, i as int),
            decreases self.entries@.len() - i,
        {
            let previous = if i == 0 {
                Vec::new()
            } else {
                bytes::to_vec(self.entries[i - 1].path.as_slice())
            };
            assert(previous@ =~= path_before(list, i as int));
            assert(list[i as int] == self.entries@[i as int]@);
            let ghost before = data@;
            encode_entry(&mut data, &self.entries[i], self.version, previous.as_slice())?;
            i += 1;
            assert(data@ =~= header + entries_bytes(list, self.version, i as int));
        }
        let ghost start = data@;
        let ghost extensions = extension_views(self.extensions@);
        let mut k: usize = 0;
        assert(data@ + extensions_bytes(extensions, 0) =~= start + extensions_bytes(extensions, 0));
        while k < self.extensions.len()
            invariant
                k <= self.extensions@.len(),
                extensions == extension_views(self.extensions@),
                extensions == self@.extensions,
                self@.entries.len() <= u32::MAX,
                forall|j: int| 0 <= j < k ==> (#[trigger] extensions[j]).1.len() <= u32::MAX,
                data@ + extensions_bytes(extensions, k as int) == start + extensions_bytes(
                    extensions,
                    0,
                ),
            decreases self.extensions@.len() - k,
        {
            let extension = &self.extensions[k];
            assert(extensions[k as int] == extension@);
            if extension.data.len() as u64 > u32::MAX as u64 {
                assert(self@.extensions[k as int].1.len() > u32::MAX);
                return Err(Error::InvalidRepository("index extension is too large"));
            }
            let ghost before = data@;
            bytes::append(&mut data, extension.signature.as_slice());
            bytes::push_be32(&mut data, extension.data.len() as u32);
            bytes::append(&mut data, extension.data.as_slice());
            assert(data@ =~= before + extension_bytes(extensions[k as int]));
            k += 1;
            assert(data@ + extensions_bytes(extensions, k as int) =~= before + extensions_bytes(
                extensions,
                k - 1,
            ));
        }
        assert(extensions_bytes(extensions, k as int) =~= Seq::<u8>::empty());
        assert(data@ =~= payload_bytes(self@));
        let checksum = sha1::digest(data.as_slice());
        bytes::append(&mut data, checksum.as_slice());
        Ok(data)
    }
}

/// Reads the extensions of a payload from `cursor` on.
fn parse_extensions(payload: &[u8], from: usize) -> (r: Result<Vec<IndexExtension>>)
    requires
        from <= payload@.len(),
    ensures
        match extensions_from(payload@, from as int) {
            Ok(list) => r is Ok && extension_views(r->Ok_0@) == list,
            Err(error) => r is Err && r->Err_0 == error,
        },
{
    let mut out: Vec<IndexExtension> = Vec::new();
    let mut cursor: usize = from;
    assert(payload.len() <= usize::MAX);
    assert(extension_views(out@) =~= Seq::empty());
    proof {
        let rest = extensions_from(payload@, from as int);
        if rest is Ok {
            assert(Seq::<(Seq<u8>, Seq<u8>)>::empty() + rest->Ok_0 =~= rest->Ok_0);
        }
    }
    while cursor < payload.len()
        invariant
            payload@.len() <= usize::MAX,
            cursor <= payload@.len(),
            extensions_from(payload@, from as int) == prepend(
                extension_views(out@),
                extensions_from(payload@, cursor as int),
            ),
        decreases payload@.len() - cursor,
    {
        if payload.len() - cursor < 8 {
            return Err(Error::InvalidRepository("truncated index extension"));
        }
        let signature: [u8; 4] = [
            payload[cursor],
            payload[cursor + 1],
            payload[cursor + 2],
            payload[cursor + 3],
        ];
        assert(signature@ =~= payload@.subrange(cursor as int, cursor + 4));
        if bytes::bytes_eq(signature.as_slice(), "link".as_bytes()) {
            return Err(
                Error::InvalidRepository("split-index link extension requires base-index merging"),
            );
        }
        if 97 <= signature[0] && signature[0] <= 122 && !bytes::bytes_eq(
            signature.as_slice(),
            "sdir".as_bytes(),
        ) {
            return Err(Error::InvalidRepository("unknown required index extension"));
        }
        let size: u32 = bytes::read_be32(payload, cursor + 4);
        cursor = cursor + 8;
        if size as u64 > (payload.len() - cursor) as u64 {
            return Err(Error::InvalidRepository("truncated index extension data"));
        }
        let end: usize = cursor + size as usize;
        let ghost before = extension_views(out@);
        let extension = IndexExtension::new(signature, bytes::copy_range(payload, cursor, end))?;
        out.push(extension);
        proof {
            assert(extension_views(out@) =~= before.push(extension@));
            let rest = extensions_from(payload@, end as int);
            if rest is Ok {
                assert(before + (seq![extension@] + rest->Ok_0) =~= extension_views(out@)
                    + rest->Ok_0);
            }
        }
        cursor = end;
    }
    assert(extension_views(out@) + Seq::<(Seq<u8>, Seq<u8>)>::empty() =~= extension_views(out@));
    Ok(out)
}

/// An index whose file a reader accepts: its counts fit, and it holds no
/// extension that a reader must know.
pub open spec fn readable(m: IndexModel) -> bool {
    &&& sound_index(m)
    &&& m.entries.len() <= u32::MAX
    &&& !too_large(m)
    &&& forall|i: int|
        0 <= i < m.entries.len() ==> (#[trigger] m.entries[i]).path.len() <= u64::MAX
    &&& forall|i: int|
        0 <= i < m.extensions.len() ==> !required_extension((#[trigger] m.extensions[i]).0)
}

proof fn lemma_entries_round_trip(m: IndexModel, payload: Seq<u8>, rest: Seq<u8>, n: int)
    requires
        readable(m),
        0 <= n <= m.entries.len(),
        payload.len() >= 12,
        payload.skip(12) == entries_bytes(m.entries, m.version, n) + rest,
    ensures
        entries_from(payload, m.version, n) == Ok::<(Seq<EntryModel>, int), Error>(
            (m.entries.take(n), 12 + entries_bytes(m.entries, m.version, n).len() as int),
        ),
    decreases n,
{
    if n > 0 {
        let e = m.entries[n - 1];
        let previous = path_before(m.entries, n - 1);
        let before = entries_bytes(m.entries, m.version, n - 1);
        let here = entry_bytes(e, m.version, previous);
        assert(before + here + rest =~= before + (here + rest));
        lemma_entries_round_trip(m, payload, here + rest, n - 1);
        let cursor = 12 + before.len();
        assert(payload.skip(cursor as int) =~= payload.skip(12).skip(before.len() as int));
        assert(payload.skip(cursor as int) =~= here + rest);
        let list = m.entries.take(n - 1);
        if n > 1 {
            assert(list[n - 2] == m.entries[n - 2]);
        }
        assert(path_before(list, list.len() as int) =~= previous);
        assert(previous.len() <= u64::MAX);
        lemma_entry_round_trip(e, m.version, previous, rest);
        assert(list.push(e) =~= m.entries.take(n));
    } else {
        assert(m.entries.take(n) =~= Seq::empty());
    }
}

proof fn lemma_extensions_round_trip(m: IndexModel, payload: Seq<u8>, cursor: int, n: int)
    requires
        readable(m),
        0 <= n <= m.extensions.len(),
        0 <= cursor <= payload.len(),
        payload.skip(cursor) == extensions_bytes(m.extensions, n),
    ensures
        extensions_from(payload, cursor) == Ok::<Seq<(Seq<u8>, Seq<u8>)>, Error>(
            m.extensions.skip(n),
        ),
    decreases m.extensions.len() - n,
{
    if n < m.extensions.len() {
        let extension = m.extensions[n];
        let here = extension_bytes(extension);
        let after = extensions_bytes(m.extensions, n + 1);
        let tail = payload.skip(cursor);
        let size = extension.1.len() as int;
        assert(tail == here + after);
        lemma_word(size as u32);
        assert(bytes::be_bytes(extension.1.len(), 4).len() == 4);
        assert(payload.len() == cursor + here.len() + after.len());
        assert(payload.subrange(cursor, cursor + 4) =~= tail.subrange(0, 4));
        assert(tail.subrange(0, 4) =~= extension.0);
        assert(payload.subrange(cursor + 4, cursor + 8) =~= tail.subrange(4, 8));
        assert(tail.subrange(4, 8) =~= bytes::be_bytes(extension.1.len(), 4));
        assert(payload.subrange(cursor + 8, cursor + 8 + size) =~= tail.subrange(8, 8 + size));
        assert(tail.subrange(8, 8 + size) =~= extension.1);
        assert(payload.skip(cursor + 8 + size) =~= tail.skip(8 + size));
        assert(tail.skip(8 + size) =~= after);
        lemma_extensions_round_trip(m, payload, cursor + 8 + size, n + 1);
        assert(extension.0 != bytes::utf8("link"@)) by {
            reveal_strlit("link");
            reveal_strlit("sdir");
            bytes::lemma_ascii("link"@);
            bytes::lemma_ascii("sdir"@);
            assert(bytes::utf8("link"@)[0] == 108);
            assert(bytes::utf8("sdir"@)[0] == 115);
            assert(!required_extension(m.extensions[n].0));
        }
        assert(seq![extension] + m.extensions.skip(n + 1) =~= m.extensions.skip(n));
        assert((extension.0, extension.1) == extension);
    } else {
        assert(payload.skip(cursor).len() == 0);
        assert(m.extensions.skip(n) =~= Seq::empty());
    }
}

/// Reading the file that was written for an index gives the index back.
pub proof fn lemma_index_round_trip(m: IndexModel)
    requires
        readable(m),
    ensures
        index_from(index_bytes(m)) == Ok::<IndexModel, Error>(m),
{
    let payload = payload_bytes(m);
    let data = index_bytes(m);
    let magic = bytes::utf8("DIRC"@);
    let count = m.entries.len();
    let body = entries_bytes(m.entries, m.version, count as int);
    let tail = extensions_bytes(m.extensions, 0);
    sha1::lemma_sha1_len(payload);
    reveal_strlit("DIRC");
    bytes::lemma_ascii("DIRC"@);
    lemma_word(version_number(m.version));
    lemma_word(count as u32);
    assert(data.take(data.len() - 20) =~= payload);
    assert(data.skip(data.len() - 20) =~= sha1::sha1(payload));
    assert(data.take(4) =~= magic);
    assert(data.subrange(4, 8) =~= word(version_number(m.version)));
    assert(data.subrange(8, 12) =~= word(count as u32));
    assert(payload.skip(12) =~= body + tail);
    lemma_entries_round_trip(m, payload, tail, count as int);
    assert(m.entries.take(count as int) =~= m.entries);
    lemma_ascend_no_duplicate(m.entries);
    let cursor = 12 + body.len() as int;
    assert(payload.skip(cursor) =~= payload.skip(12).skip(body.len() as int));
    assert(payload.skip(cursor) =~= tail);
    lemma_extensions_round_trip(m, payload, cursor, 0);
    assert(m.extensions.skip(0) =~= m.extensions);
}

/// In the second and third version an entry is stored without regard to the
/// one before it, and fills a multiple of eight bytes.
pub proof fn lemma_entry_layout(e: EntryModel, version: IndexVersion, previous: Seq<u8>)
    requires
        !(version is V4),
    ensures
        entry_bytes(e, version, previous) == entry_bytes(e, version, Seq::empty()),
        entry_bytes(e, version, previous).len() % 8 == 0,
        (head_bytes(e) + e.path + seq![0u8]).is_prefix_of(entry_bytes(e, version, previous)),
{
    reveal(entry_bytes);
    let raw = head_bytes(e) + e.path + seq![0u8];
    let all = entry_bytes(e, version, previous);
    assert(all == raw + zeros(padding(raw.len())));
    assert(all.subrange(0, raw.len() as int) =~= raw);
}

} // verus!
