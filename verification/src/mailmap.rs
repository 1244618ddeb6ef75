//! Canonical names and emails from mailmap data.

use vstd::prelude::*;

use crate::bytes;
use crate::commit::{Signature, SignatureModel};
use crate::fs;
use crate::fs::memory;
use crate::fs::path;
use crate::fs::{FileSystem, Refusal};
use crate::object::{ObjectId, ObjectKind};
use crate::repository;
use crate::repository::Repository;
use crate::storage;
use crate::{Error, Result};

verus! {

/// The limits on mailmap data.
#[derive(Clone, Debug, PartialEq, Eq)]
pub struct MailmapOptions {
    pub max_bytes: usize,
    pub max_entries: usize,
}

impl Default for MailmapOptions {
    fn default() -> (r: Self)
        ensures
            r.max_bytes == 16 * 1024 * 1024 && r.max_entries == 1_000_000,
    {
        MailmapOptions { max_bytes: 16 * 1024 * 1024, max_entries: 1_000_000 }
    }
}

#[derive(Debug, PartialEq, Eq)]
struct Entry {
    key: Vec<u8>,
    old_name: Option<Vec<u8>>,
    name: Option<Vec<u8>>,
    email: Option<Vec<u8>>,
}

/// What an entry says: for an email in lower case, and a name in lower case
/// where it asks for one, the name and the email to use instead.
#[verifier::ext_equal]
pub struct Rule {
    pub key: Seq<u8>,
    pub old_name: Option<Seq<u8>>,
    pub name: Option<Seq<u8>>,
    pub email: Option<Seq<u8>>,
}

spec fn text(value: Option<Vec<u8>>) -> Option<Seq<u8>> {
    match value {
        Some(value) => Some(value@),
        None => None,
    }
}

impl Entry {
    spec fn model(self) -> Rule {
        Rule {
            key: self.key@,
            old_name: text(self.old_name),
            name: text(self.name),
            email: text(self.email),
        }
    }
}

/// Rules for names and emails, the later ones of which overrule the earlier.
#[derive(Debug, PartialEq, Eq)]
pub struct Mailmap {
    entries: Vec<Entry>,
}

impl View for Mailmap {
    type V = Seq<Rule>;

    closed spec fn view(&self) -> Seq<Rule> {
        Seq::new(self.entries@.len(), |i: int| self.entries@[i].model())
    }
}

// ---------------------------------------------------------------------------
// What a mailmap does

/// The last of the first `n` rules for an email that asks for a name.
pub open spec fn named_rule(rules: Seq<Rule>, key: Seq<u8>, name: Seq<u8>, n: int) -> Option<Rule>
    decreases n,
{
    if n <= 0 {
        None
    } else if rules[n - 1].key == key && rules[n - 1].old_name == Some(name) {
        Some(rules[n - 1])
    } else {
        named_rule(rules, key, name, n - 1)
    }
}

/// The name of the last of the first `n` rules for an email alone that gives
/// one.
pub open spec fn common_name(rules: Seq<Rule>, key: Seq<u8>, n: int) -> Option<Seq<u8>>
    decreases n,
{
    if n <= 0 {
        None
    } else if rules[n - 1].key == key && rules[n - 1].old_name is None && rules[n - 1].name is Some {
        rules[n - 1].name
    } else {
        common_name(rules, key, n - 1)
    }
}

/// The email of the last of the first `n` rules for an email alone that gives
/// one.
pub open spec fn common_email(rules: Seq<Rule>, key: Seq<u8>, n: int) -> Option<Seq<u8>>
    decreases n,
{
    if n <= 0 {
        None
    } else if rules[n - 1].key == key && rules[n - 1].old_name is None && rules[n - 1].email
        is Some {
        rules[n - 1].email
    } else {
        common_email(rules, key, n - 1)
    }
}

pub open spec fn or(value: Option<Seq<u8>>, other: Seq<u8>) -> Seq<u8> {
    match value {
        Some(value) => value,
        None => other,
    }
}

/// The canonical name and email. Letter case does not matter for finding
/// them; a rule that asks for the name comes before those that do not.
pub open spec fn identity(rules: Seq<Rule>, name: Seq<u8>, email: Seq<u8>) -> (Seq<u8>, Seq<u8>) {
    let key = bytes::lower(email);
    let n = rules.len() as int;
    match named_rule(rules, key, bytes::lower(name), n) {
        Some(rule) => (or(rule.name, name), or(rule.email, email)),
        None => (or(common_name(rules, key, n), name), or(common_email(rules, key, n), email)),
    }
}

// ---------------------------------------------------------------------------
// Reading

pub open spec fn breaks(b: u8) -> bool {
    b == 0 || b == 10 || b == 13 || b == 60 || b == 62
}

pub open spec fn is_broken(s: Seq<u8>) -> bool {
    exists|i: int| 0 <= i < s.len() && breaks(#[trigger] s[i])
}

/// A name where there is one, an email, and what follows.
#[verifier::ext_equal]
pub struct Identity {
    pub name: Option<Seq<u8>>,
    pub email: Seq<u8>,
    pub rest: Seq<u8>,
}

/// The name and the email at the start of a text.
pub open spec fn identity_at(input: Seq<u8>, allow_empty: bool) -> core::result::Result<
    Identity,
    Error,
> {
    let left = bytes::index_from(input, 60, 0);
    let right = bytes::index_from(input, 62, left + 1);
    let name = bytes::trimmed_text(input.take(left));
    let email = input.subrange(left + 1, right);
    if left >= input.len() {
        Err(Error::InvalidRepository("identity has no `<`"))
    } else if right >= input.len() {
        Err(Error::InvalidRepository("identity has no `>`"))
    } else if email.len() == 0 && !allow_empty {
        Err(Error::InvalidRepository("mailmap email is empty"))
    } else if is_broken(name) {
        Err(Error::InvalidRepository("invalid mailmap name"))
    } else if is_broken(email) {
        Err(Error::InvalidRepository("invalid mailmap email"))
    } else {
        Ok(
            Identity {
                name: if name.len() == 0 {
                    None
                } else {
                    Some(name)
                },
                email,
                rest: input.skip(right + 1),
            },
        )
    }
}

/// Whether nothing but white space stands in a text.
pub open spec fn is_blank(s: Seq<u8>) -> bool {
    bytes::trimmed_text(s).len() == 0
}

/// The rule of a line: one identity names the owner of an email, a second is
/// what the first stands for.
pub open spec fn rule_of(line: Seq<u8>) -> core::result::Result<Rule, Error> {
    match identity_at(line, false) {
        Err(error) => Err(error),
        Ok(first) => if is_blank(first.rest) {
            Ok(
                Rule {
                    key: bytes::lower(first.email),
                    old_name: None,
                    name: first.name,
                    email: None,
                },
            )
        } else {
            match identity_at(first.rest, true) {
                Err(error) => Err(error),
                Ok(second) => if !is_blank(second.rest) {
                    Err(Error::InvalidRepository("unexpected data after second identity"))
                } else if second.email.len() == 0 {
                    Err(Error::InvalidRepository("old mailmap email is empty"))
                } else {
                    Ok(
                        Rule {
                            key: bytes::lower(second.email),
                            old_name: match second.name {
                                Some(name) => Some(bytes::lower(name)),
                                None => None,
                            },
                            name: first.name,
                            email: Some(first.email),
                        },
                    )
                },
            }
        },
    }
}

/// A line without a carriage return at its end.
pub open spec fn without_return(line: Seq<u8>) -> Seq<u8> {
    if line.len() > 0 && line.last() == 13 {
        line.drop_last()
    } else {
        line
    }
}

/// A line as it is read: a newline may be preceded by a carriage return, and
/// one more does not count.
pub open spec fn line_at(parts: Seq<Seq<u8>>, k: int) -> Seq<u8> {
    if k + 1 < parts.len() {
        without_return(without_return(parts[k]))
    } else {
        without_return(parts[k])
    }
}

/// Whether a line is passed over: blank, or a comment.
pub open spec fn is_skipped(line: Seq<u8>) -> bool {
    is_blank(line) || (line.len() > 0 && line[0] == 35)
}

/// The rules of the first `n` lines.
pub open spec fn rules_of(parts: Seq<Seq<u8>>, max_entries: nat, n: int) -> core::result::Result<
    Seq<Rule>,
    Error,
>
    decreases n,
{
    if n <= 0 {
        Ok(Seq::empty())
    } else {
        match rules_of(parts, max_entries, n - 1) {
            Err(error) => Err(error),
            Ok(rules) => {
                let line = line_at(parts, n - 1);
                if is_skipped(line) {
                    Ok(rules)
                } else if rules.len() + 1 > max_entries {
                    Err(Error::InvalidRepository("mailmap exceeds entry limit"))
                } else {
                    match rule_of(line) {
                        Err(error) => Err(error),
                        Ok(rule) => Ok(rules.push(rule)),
                    }
                }
            },
        }
    }
}

/// The rules of mailmap data, or why it is refused.
pub open spec fn parsed(data: Seq<u8>, options: MailmapOptions) -> core::result::Result<
    Seq<Rule>,
    Error,
> {
    let parts = bytes::split(data, 10);
    if data.len() > options.max_bytes {
        Err(Error::InvalidRepository("mailmap exceeds byte limit"))
    } else if !vstd::utf8::valid_utf8(data) {
        Err(Error::InvalidRepository("mailmap is not UTF-8"))
    } else {
        rules_of(parts, options.max_entries as nat, parts.len() as int)
    }
}

fn holds_break(s: &[u8]) -> (r: bool)
    ensures
        r == is_broken(s@),
{
    let mut i: usize = 0;
    while i < s.len()
        invariant
            i <= s@.len(),
            forall|k: int| 0 <= k < i ==> !breaks(#[trigger] s@[k]),
        decreases s@.len() - i,
    {
        let b: u8 = s[i];
        if b == 0 || b == 10 || b == 13 || b == 60 || b == 62 {
            assert(breaks(s@[i as int]));
            return true;
        }
        i += 1;
    }
    false
}

fn parse_name_email(input: &[u8], allow_empty_email: bool) -> (r: Result<
    (Option<Vec<u8>>, Vec<u8>, Vec<u8>),
>)
    ensures
        match identity_at(input@, allow_empty_email) {
            Ok(found) => r is Ok && text(r->Ok_0.0) == found.name && r->Ok_0.1@ == found.email
                && r->Ok_0.2@ == found.rest,
            Err(error) => r is Err && r->Err_0 == error,
        },
{
    let left: usize = bytes::find_byte(input, 60, 0);
    if left >= input.len() {
        return Err(Error::InvalidRepository("identity has no `<`"));
    }
    let right: usize = bytes::find_byte(input, 62, left + 1);
    if right >= input.len() {
        return Err(Error::InvalidRepository("identity has no `>`"));
    }
    let head = bytes::copy_range(input, 0, left);
    assert(head@ =~= input@.take(left as int));
    let name = bytes::trim_bytes(head.as_slice());
    let email = bytes::copy_range(input, left + 1, right);
    let rest = bytes::copy_range(input, right + 1, input.len());
    assert(rest@ =~= input@.skip(right + 1));
    if email.len() == 0 && !allow_empty_email {
        return Err(Error::InvalidRepository("mailmap email is empty"));
    }
    if holds_break(name.as_slice()) {
        return Err(Error::InvalidRepository("invalid mailmap name"));
    }
    if holds_break(email.as_slice()) {
        return Err(Error::InvalidRepository("invalid mailmap email"));
    }
    let name = if name.len() == 0 {
        None
    } else {
        Some(name)
    };
    Ok((name, email, rest))
}

fn blank(s: &[u8]) -> (r: bool)
    ensures
        r == is_blank(s@),
{
    bytes::trim_bytes(s).len() == 0
}

fn parse_line(line: &[u8]) -> (r: Result<Entry>)
    ensures
        match rule_of(line@) {
            Ok(rule) => r is Ok && r->Ok_0.model() == rule,
            Err(error) => r is Err && r->Err_0 == error,
        },
{
    let (name, email, rest) = parse_name_email(line, false)?;
    if blank(rest.as_slice()) {
        return Ok(
            Entry { key: bytes::to_lower(email.as_slice()), old_name: None, name, email: None },
        );
    }
    let (old_name, old_email, trailing) = parse_name_email(rest.as_slice(), true)?;
    if !blank(trailing.as_slice()) {
        return Err(Error::InvalidRepository("unexpected data after second identity"));
    }
    if old_email.len() == 0 {
        return Err(Error::InvalidRepository("old mailmap email is empty"));
    }
    let old_name = match old_name {
        Some(name) => Some(bytes::to_lower(name.as_slice())),
        None => None,
    };
    Ok(Entry { key: bytes::to_lower(old_email.as_slice()), old_name, name, email: Some(email) })
}

fn cut_return(line: &[u8]) -> (r: &[u8])
    ensures
        r@ == without_return(line@),
{
    if line.len() > 0 && line[line.len() - 1] == 13 {
        let r = &line[0..line.len() - 1];
        assert(r@ =~= line@.drop_last());
        r
    } else {
        line
    }
}

proof fn lemma_rules_persist(parts: Seq<Seq<u8>>, max_entries: nat, n: int, m: int)
    requires
        0 <= n <= m,
        rules_of(parts, max_entries, n) is Err,
    ensures
        rules_of(parts, max_entries, m) == rules_of(parts, max_entries, n),
    decreases m - n,
{
    if n < m {
        lemma_rules_persist(parts, max_entries, n, m - 1);
    }
}

fn same_text(value: &Option<Vec<u8>>, other: &[u8]) -> (r: bool)
    ensures
        r == (text(*value) == Some(other@)),
{
    match value {
        Some(value) => bytes::bytes_eq(value.as_slice(), other),
        None => false,
    }
}

impl Mailmap {
    /// A mailmap without rules.
    pub fn new() -> (r: Self)
        ensures
            r@ == Seq::<Rule>::empty(),
    {
        let r = Mailmap { entries: Vec::new() };
        assert(r@ =~= Seq::<Rule>::empty());
        r
    }

    /// Parses one complete source.
    pub fn parse(data: &[u8], options: &MailmapOptions) -> (r: Result<Self>)
        ensures
            match parsed(data@, *options) {
                Ok(rules) => r is Ok && r->Ok_0@ == rules,
                Err(error) => r is Err && r->Err_0 == error,
            },
    {
        if data.len() > options.max_bytes {
            return Err(Error::InvalidRepository("mailmap exceeds byte limit"));
        }
        if bytes::text_of(data).is_none() {
            return Err(Error::InvalidRepository("mailmap is not UTF-8"));
        }
        let lines = bytes::split_on(data, 10);
        let ghost parts = bytes::deep(lines@);
        let ghost limit = options.max_entries as nat;
        let mut result = Mailmap::new();
        let mut i: usize = 0;
        while i < lines.len()
            invariant
                i <= lines@.len(),
                parts == bytes::deep(lines@),
                parts == bytes::split(data@, 10),
                limit == options.max_entries,
                data@.len() <= options.max_bytes,
                vstd::utf8::valid_utf8(data@),
                rules_of(parts, limit, i as int) == Ok::<Seq<Rule>, Error>(result@),
            decreases lines@.len() - i,
        {
            assert(parts[i as int] == lines@[i as int]@);
            let once = cut_return(lines[i].as_slice());
            let line = if i + 1 < lines.len() {
                cut_return(once)
            } else {
                once
            };
            assert(line@ == line_at(parts, i as int));
            proof {
                if rules_of(parts, limit, i + 1) is Err {
                    lemma_rules_persist(parts, limit, i + 1, parts.len() as int);
                }
            }
            if !(blank(line) || (line.len() > 0 && line[0] == 35)) {
                assert(result@.len() == result.entries@.len());
                if result.entries.len() >= options.max_entries {
                    return Err(Error::InvalidRepository("mailmap exceeds entry limit"));
                }
                let entry = parse_line(line)?;
                let ghost before = result@;
                let ghost rule = entry.model();
                result.entries.push(entry);
                assert(result@ =~= before.push(rule));
            }
            i += 1;
        }
        Ok(result)
    }

    /// Gives the canonical name and email.
    pub fn map_identity<'a>(&'a self, name: &'a [u8], email: &'a [u8]) -> (r: (&'a [u8], &'a [u8]))
        ensures
            (r.0@, r.1@) == identity(self@, name@, email@),
    {
        let key = bytes::to_lower(email);
        let low = bytes::to_lower(name);
        let ghost rules = self@;
        let count: usize = self.entries.len();
        assert(count == rules.len());
        let mut i: usize = count;
        while i > 0
            invariant
                i <= count,
                count == self.entries@.len(),
                rules == self@,
                key@ == bytes::lower(email@),
                low@ == bytes::lower(name@),
                count == rules.len(),
                named_rule(rules, key@, low@, rules.len() as int) == named_rule(
                    rules,
                    key@,
                    low@,
                    i as int,
                ),
            decreases i,
        {
            let entry = &self.entries[i - 1];
            assert(rules[i - 1] == entry.model());
            if bytes::bytes_eq(entry.key.as_slice(), key.as_slice()) && same_text(
                &entry.old_name,
                low.as_slice(),
            ) {
                let mapped_name: &[u8] = match &entry.name {
                    Some(name) => name.as_slice(),
                    None => name,
                };
                let mapped_email: &[u8] = match &entry.email {
                    Some(email) => email.as_slice(),
                    None => email,
                };
                return (mapped_name, mapped_email);
            }
            i -= 1;
        }
        (self.find_name(key.as_slice(), name), self.find_email(key.as_slice(), email))
    }

    fn find_name<'a>(&'a self, key: &[u8], name: &'a [u8]) -> (r: &'a [u8])
        ensures
            r@ == or(common_name(self@, key@, self@.len() as int), name@),
    {
        let ghost rules = self@;
        let mut i: usize = self.entries.len();
        while i > 0
            invariant
                i <= self.entries@.len(),
                rules == self@,
                rules.len() == self.entries@.len(),
                common_name(rules, key@, rules.len() as int) == common_name(rules, key@, i as int),
            decreases i,
        {
            let entry = &self.entries[i - 1];
            assert(rules[i - 1] == entry.model());
            if bytes::bytes_eq(entry.key.as_slice(), key) && entry.old_name.is_none() {
                if let Some(name) = &entry.name {
                    return name.as_slice();
                }
            }
            i -= 1;
        }
        name
    }

    fn find_email<'a>(&'a self, key: &[u8], email: &'a [u8]) -> (r: &'a [u8])
        ensures
            r@ == or(common_email(self@, key@, self@.len() as int), email@),
    {
        let ghost rules = self@;
        let mut i: usize = self.entries.len();
        while i > 0
            invariant
                i <= self.entries@.len(),
                rules == self@,
                rules.len() == self.entries@.len(),
                common_email(rules, key@, rules.len() as int) == common_email(
                    rules,
                    key@,
                    i as int,
                ),
            decreases i,
        {
            let entry = &self.entries[i - 1];
            assert(rules[i - 1] == entry.model());
            if bytes::bytes_eq(entry.key.as_slice(), key) && entry.old_name.is_none() {
                if let Some(email) = &entry.email {
                    return email.as_slice();
                }
            }
            i -= 1;
        }
        email
    }

    /// Gives a signature its canonical name and email; its time stays.
    pub fn map_signature(&self, signature: &Signature) -> (r: Result<Signature>)
        ensures
            r is Ok,
            r->Ok_0@ == (SignatureModel {
                name: identity(self@, signature@.name, signature@.email).0,
                email: identity(self@, signature@.name, signature@.email).1,
                ..signature@
            }),
    {
        let (name, email) = self.map_identity(signature.name(), signature.email());
        Ok(signature.renamed(name, email))
    }

    /// Adds the rules of another mailmap, which overrule the ones at hand.
    fn merge(&mut self, source: Mailmap, options: &MailmapOptions) -> (r: Result<()>)
        ensures
            if old(self)@.len() + source@.len() > options.max_entries {
                r is Err && r->Err_0 == Error::InvalidRepository("mailmap exceeds entry limit")
            } else {
                r is Ok && final(self)@ == old(self)@ + source@
            },
    {
        let ghost start = self@;
        let ghost added = source@;
        assert(start.len() == self.entries@.len() && added.len() == source.entries@.len());
        if source.entries.len() > options.max_entries || self.entries.len() > options.max_entries
            - source.entries.len() {
            return Err(Error::InvalidRepository("mailmap exceeds entry limit"));
        }
        let mut source = source;
        self.entries.append(&mut source.entries);
        assert(self@ =~= start + added);
        Ok(())
    }
}

// ---------------------------------------------------------------------------
// The mailmap of a repository

/// What has been loaded: the rules and the number of bytes.
#[verifier::ext_equal]
pub struct Loaded {
    pub rules: Seq<Rule>,
    pub size: nat,
}

/// What is loaded once a source is added.
pub open spec fn with_source(loaded: Loaded, data: Seq<u8>, options: MailmapOptions) -> core::result::Result<
    Loaded,
    Error,
> {
    let size = loaded.size + data.len();
    if size > options.max_bytes {
        Err(Error::InvalidRepository("mailmap sources exceed byte limit"))
    } else {
        match parsed(data, options) {
            Err(error) => Err(error),
            Ok(rules) => if loaded.rules.len() + rules.len() > options.max_entries {
                Err(Error::InvalidRepository("mailmap exceeds entry limit"))
            } else {
                Ok(Loaded { rules: loaded.rules + rules, size })
            },
        }
    }
}

/// What reading a path gives, once the path is in its plain form.
pub open spec fn file_at(files: memory::Tree, p: Seq<u8>) -> core::result::Result<
    Seq<u8>,
    Refusal,
> {
    match path::normalized(p) {
        None => Err(Refusal::At(fs::Fault::InvalidPath, p)),
        Some(plain) => storage::read_at(files, plain),
    }
}

/// What is loaded once the file in the working tree is added.
pub open spec fn with_worktree(
    loaded: Loaded,
    files: memory::Tree,
    work: Option<Seq<u8>>,
    options: MailmapOptions,
) -> core::result::Result<Loaded, Refusal> {
    match work {
        None => Ok(loaded),
        Some(root) => match file_at(
            files,
            repository::joined(root, bytes::utf8(".mailmap"@)),
        ) {
            Ok(data) => match with_source(loaded, data, options) {
                Ok(next) => Ok(next),
                Err(error) => Err(Refusal::Said(error)),
            },
            Err(refusal) => if crate::ignore::is_absent(refusal) {
                Ok(loaded)
            } else {
                Err(refusal)
            },
        },
    }
}

/// What is loaded once a blob is added.
pub open spec fn with_blob(
    loaded: Loaded,
    files: memory::Tree,
    git: Seq<u8>,
    blob: Option<Seq<u8>>,
    options: MailmapOptions,
) -> core::result::Result<Loaded, Refusal> {
    match blob {
        None => Ok(loaded),
        Some(id) => match storage::stored_object(files, git, id, options.max_bytes as nat) {
            Err(refusal) => Err(refusal),
            Ok((kind, data)) => if !(kind is Blob) {
                Err(Refusal::Said(Error::InvalidRepository("mailmap blob is not a blob")))
            } else {
                match with_source(loaded, data, options) {
                    Ok(next) => Ok(next),
                    Err(error) => Err(Refusal::Said(error)),
                }
            },
        },
    }
}

/// The path that a setting names: below the working tree, or below the
/// repository's own directory where there is none, unless it is absolute.
pub open spec fn configured(git: Seq<u8>, work: Option<Seq<u8>>, value: Seq<u8>) -> Seq<u8> {
    if value.len() > 0 && value[0] == 47 {
        value
    } else {
        repository::joined(
            match work {
                Some(root) => root,
                None => git,
            },
            value,
        )
    }
}

/// What is loaded once a configured file is added.
pub open spec fn with_file(
    loaded: Loaded,
    files: memory::Tree,
    git: Seq<u8>,
    work: Option<Seq<u8>>,
    setting: Seq<u8>,
    options: MailmapOptions,
) -> core::result::Result<Loaded, Refusal> {
    match file_at(files, configured(git, work, bytes::trimmed_text(setting))) {
        Err(refusal) => Err(refusal),
        Ok(data) => match with_source(loaded, data, options) {
            Ok(next) => Ok(next),
            Err(error) => Err(Refusal::Said(error)),
        },
    }
}

/// Why a setting cannot name a file.
pub open spec fn setting_fault(setting: Option<Seq<u8>>) -> Option<Error> {
    match setting {
        None => None,
        Some(value) => if !vstd::utf8::valid_utf8(value) {
            Some(Error::InvalidRepository("mailmap config value is non-UTF-8"))
        } else if bytes::trimmed_text(value).len() == 0 {
            Some(Error::InvalidRepository("mailmap config value is empty"))
        } else {
            None
        },
    }
}

/// The rules of a repository: those of the working tree, of a blob and of a
/// configured file, in this order.
pub open spec fn loaded_rules(
    files: memory::Tree,
    git: Seq<u8>,
    work: Option<Seq<u8>>,
    blob: Option<Seq<u8>>,
    setting: Option<Seq<u8>>,
    options: MailmapOptions,
) -> core::result::Result<Seq<Rule>, Refusal> {
    match setting_fault(setting) {
        Some(error) => Err(Refusal::Said(error)),
        None => match with_worktree(
            Loaded { rules: Seq::empty(), size: 0 },
            files,
            work,
            options,
        ) {
            Err(refusal) => Err(refusal),
            Ok(first) => match with_blob(first, files, git, blob, options) {
                Err(refusal) => Err(refusal),
                Ok(second) => match setting {
                    None => Ok(second.rules),
                    Some(value) => match with_file(second, files, git, work, value, options) {
                        Err(refusal) => Err(refusal),
                        Ok(third) => Ok(third.rules),
                    },
                },
            },
        },
    }
}

fn merge_source(
    destination: &mut Mailmap,
    loaded_bytes: &mut usize,
    data: &[u8],
    options: &MailmapOptions,
) -> (r: Result<()>)
    ensures
        match with_source(
            Loaded { rules: old(destination)@, size: *old(loaded_bytes) as nat },
            data@,
            *options,
        ) {
            Ok(next) => r is Ok && final(destination)@ == next.rules && *final(loaded_bytes)
                == next.size,
            Err(error) => r is Err && r->Err_0 == error,
        },
{
    if data.len() > options.max_bytes || *loaded_bytes > options.max_bytes - data.len() {
        return Err(Error::InvalidRepository("mailmap sources exceed byte limit"));
    }
    *loaded_bytes = *loaded_bytes + data.len();
    let source = Mailmap::parse(data, options)?;
    destination.merge(source, options)
}

impl Repository {
    /// Loads the mailmap of the repository: the file in the working tree, then
    /// a blob, then the file that a setting names. `blob` is what the
    /// configured revision, or the default one of a bare repository, leads
    /// to.
    pub fn load_mailmap(
        &self,
        blob: Option<ObjectId>,
        setting: Option<&[u8]>,
        options: &MailmapOptions,
    ) -> (r: Result<Mailmap>)
        ensures
            match loaded_rules(
                self.tree(),
                self.git(),
                self.work(),
                match blob {
                    Some(id) => Some(id@),
                    None => None,
                },
                match setting {
                    Some(value) => Some(value@),
                    None => None,
                },
                *options,
            ) {
                Ok(rules) => r is Ok && r->Ok_0@ == rules,
                Err(refusal) => fs::declined(r, refusal),
            },
    {
        if let Some(value) = setting {
            if bytes::text_of(value).is_none() {
                return Err(Error::InvalidRepository("mailmap config value is non-UTF-8"));
            }
            if blank(value) {
                return Err(Error::InvalidRepository("mailmap config value is empty"));
            }
        }
        let mut result = Mailmap::new();
        let mut size: usize = 0;
        if let Some(root) = self.work_tree() {
            let at = repository::join_path(root, ".mailmap".as_bytes());
            match self.filesystem().read(at.as_slice()) {
                Ok(data) => merge_source(&mut result, &mut size, data.as_slice(), options)?,
                Err(Error::NotFound(_)) => {},
                Err(error) => return Err(error),
            }
        }
        if let Some(id) = blob {
            let object = self.read_object_raw(id, options.max_bytes)?;
            match object.kind() {
                ObjectKind::Blob => {},
                _ => return Err(Error::InvalidRepository("mailmap blob is not a blob")),
            }
            merge_source(&mut result, &mut size, object.data(), options)?;
        }
        if let Some(value) = setting {
            let plain = bytes::trim_bytes(value);
            let base: &[u8] = match self.work_tree() {
                Some(root) => root,
                None => self.git_dir(),
            };
            let at = if plain.len() > 0 && plain[0] == 47 {
                plain
            } else {
                repository::join_path(base, plain.as_slice())
            };
            let data = self.filesystem().read(at.as_slice())?;
            merge_source(&mut result, &mut size, data.as_slice(), options)?;
        }
        Ok(result)
    }
}

/// Letter case does not matter for what is found.
pub proof fn lemma_case_ignored(
    rules: Seq<Rule>,
    name: Seq<u8>,
    email: Seq<u8>,
    other_name: Seq<u8>,
    other_email: Seq<u8>,
)
    requires
        bytes::lower(name) == bytes::lower(other_name),
        bytes::lower(email) == bytes::lower(other_email),
        named_rule(rules, bytes::lower(email), bytes::lower(name), rules.len() as int) matches Some(
            rule,
        ) && rule.name is Some && rule.email is Some,
    ensures
        identity(rules, name, email) == identity(rules, other_name, other_email),
{
}

/// A later rule that asks for a name and an email overrules all before it.
pub proof fn lemma_later_rule_wins(rules: Seq<Rule>, rule: Rule, name: Seq<u8>, email: Seq<u8>)
    requires
        rule.key == bytes::lower(email),
        rule.old_name == Some(bytes::lower(name)),
        rule.name is Some,
        rule.email is Some,
    ensures
        identity(rules.push(rule), name, email) == (rule.name->0, rule.email->0),
{
}

proof fn lemma_rules_prefix(
    one: Seq<Seq<u8>>,
    two: Seq<Seq<u8>>,
    max_entries: nat,
    n: int,
)
    requires
        n < one.len(),
        n < two.len(),
        forall|k: int| 0 <= k < n ==> #[trigger] one[k] == two[k],
    ensures
        rules_of(one, max_entries, n) == rules_of(two, max_entries, n),
    decreases n,
{
    if n > 0 {
        lemma_rules_prefix(one, two, max_entries, n - 1);
        assert(one[n - 1] == two[n - 1]);
    }
}

proof fn lemma_rules_suffix(
    front: Seq<Seq<u8>>,
    back: Seq<Seq<u8>>,
    before: Seq<Rule>,
    max_entries: nat,
    n: int,
)
    requires
        0 <= n <= back.len(),
        back.len() > 0,
        rules_of(front + back, max_entries, front.len() as int) == Ok::<Seq<Rule>, Error>(before),
        rules_of(back, max_entries, n) is Ok,
        before.len() + (rules_of(back, max_entries, n)->Ok_0).len() <= max_entries,
    ensures
        rules_of(front + back, max_entries, front.len() + n) == Ok::<Seq<Rule>, Error>(
            before + rules_of(back, max_entries, n)->Ok_0,
        ),
    decreases n,
{
    let whole = front + back;
    if n > 0 {
        lemma_rules_suffix(front, back, before, max_entries, n - 1);
        assert(whole[front.len() + n - 1] == back[n - 1]);
        assert(line_at(whole, front.len() + n - 1) == line_at(back, n - 1));
        let rules = rules_of(back, max_entries, n - 1)->Ok_0;
        let line = line_at(back, n - 1);
        if !is_skipped(line) {
            let rule = rule_of(line)->Ok_0;
            assert((before + rules).push(rule) =~= before + rules.push(rule));
        }
    } else {
        assert(before + Seq::<Rule>::empty() =~= before);
    }
}

/// Two sources that load one after the other, the first ending in a newline,
/// load alike as one text.
pub proof fn lemma_sources_load_as_one(
    loaded: Loaded,
    first: Seq<u8>,
    second: Seq<u8>,
    options: MailmapOptions,
)
    requires
        first.len() > 0,
        first.last() == 10,
        with_source(loaded, first, options) is Ok,
        with_source(with_source(loaded, first, options)->Ok_0, second, options) is Ok,
    ensures
        with_source(loaded, first + second, options) == with_source(
            with_source(loaded, first, options)->Ok_0,
            second,
            options,
        ),
{
    let max = options.max_entries as nat;
    let line = first.drop_last();
    assert(first =~= line.push(10));
    assert(line.push(10) + second == first + second);
    crate::fs::path::lemma_split_concat(line, second, 10);
    crate::fs::path::lemma_split_concat(line, Seq::empty(), 10);
    crate::fs::path::lemma_split_single(Seq::<u8>::empty(), 10);
    assert(line.push(10) + Seq::<u8>::empty() =~= first);
    bytes::lemma_split_nonempty(second, 10);
    let front = bytes::split(line, 10);
    let back = bytes::split(second, 10);
    let n = front.len() as int;
    let own = front + seq![Seq::<u8>::empty()];
    assert(bytes::split(first, 10) == own);
    lemma_rules_prefix(own, front + back, max, n);
    assert(own[n] == Seq::<u8>::empty());
    assert(line_at(own, n) =~= Seq::<u8>::empty());
    assert(is_skipped(Seq::<u8>::empty()));
    let before = parsed(first, options)->Ok_0;
    assert(rules_of(own, max, n + 1) == rules_of(own, max, n));
    assert(own.len() == n + 1);
    let after = parsed(second, options)->Ok_0;
    lemma_rules_suffix(front, back, before, max, back.len() as int);
    vstd::utf8::valid_utf8_concat(first, second);
    assert(loaded.rules + (before + after) =~= (loaded.rules + before) + after);
}

/// Whether data ends in two carriage returns.
pub open spec fn ends_twice(data: Seq<u8>) -> bool {
    data.len() >= 2 && data[data.len() - 1] == 13 && data[data.len() - 2] == 13
}

proof fn lemma_last_part(data: Seq<u8>)
    ensures
        ({
            let part = bytes::split(data, 10).last();
            &&& bytes::split(data, 10).len() > 0
            &&& part.len() <= data.len()
            &&& part == data.skip(data.len() - part.len())
        }),
    decreases data.len(),
{
    bytes::lemma_split_nonempty(data, 10);
    bytes::lemma_index_from(data, 10, 0);
    let at = bytes::index_from(data, 10, 0);
    if at < data.len() {
        let rest = data.skip(at + 1);
        lemma_last_part(rest);
        let part = bytes::split(rest, 10).last();
        assert(bytes::split(data, 10).last() == part);
        assert(part =~= data.skip(data.len() - part.len()));
    } else {
        assert(bytes::split(data, 10) =~= seq![data]);
        assert(data.skip(0) =~= data);
    }
}

proof fn lemma_closed_rules(parts: Seq<Seq<u8>>, max_entries: nat, n: int)
    requires
        0 <= n <= parts.len(),
        parts.len() > 0,
        !ends_twice(parts.last()),
    ensures
        rules_of(parts.push(Seq::empty()), max_entries, n) == rules_of(parts, max_entries, n),
    decreases n,
{
    if n > 0 {
        lemma_closed_rules(parts, max_entries, n - 1);
        let whole = parts.push(Seq::<u8>::empty());
        assert(whole[n - 1] == parts[n - 1]);
        assert(line_at(whole, n - 1) == line_at(parts, n - 1));
    }
}

/// A newline at the end of a source changes nothing.
proof fn lemma_closed_source(data: Seq<u8>, options: MailmapOptions)
    requires
        parsed(data, options) is Ok,
        data.len() < options.max_bytes,
        !ends_twice(data),
    ensures
        parsed(data.push(10), options) == parsed(data, options),
{
    let max = options.max_entries as nat;
    let parts = bytes::split(data, 10);
    crate::fs::path::lemma_split_concat(data, Seq::empty(), 10);
    crate::fs::path::lemma_split_single(Seq::<u8>::empty(), 10);
    assert(data.push(10) + Seq::<u8>::empty() =~= data.push(10));
    let whole = parts.push(Seq::<u8>::empty());
    assert(parts + seq![Seq::<u8>::empty()] =~= whole);
    lemma_last_part(data);
    let part = parts.last();
    if ends_twice(part) {
        assert(part[part.len() - 1] == data[data.len() - 1]);
        assert(part[part.len() - 2] == data[data.len() - 2]);
    }
    let n = parts.len() as int;
    lemma_closed_rules(parts, max, n);
    assert(whole[n] == Seq::<u8>::empty());
    assert(line_at(whole, n) =~= Seq::<u8>::empty());
    assert(is_skipped(Seq::<u8>::empty()));
    assert(rules_of(whole, max, n + 1) == rules_of(whole, max, n));
    assert(vstd::utf8::valid_utf8(seq![10u8])) by {
        reveal_strlit("\n");
        bytes::lemma_ascii("\n"@);
        vstd::utf8::encode_utf8_valid_utf8("\n"@);
        assert(bytes::utf8("\n"@) =~= seq![10u8]);
    }
    vstd::utf8::valid_utf8_concat(data, seq![10u8]);
    assert(data + seq![10u8] =~= data.push(10));
}

/// The rules of three sources that load one after the other are those of one
/// text: the sources joined by newlines. The text has to keep to the limit of
/// a single one.
pub proof fn lemma_joined_sources(
    first: Seq<u8>,
    second: Seq<u8>,
    third: Seq<u8>,
    options: MailmapOptions,
)
    requires
        first.len() + second.len() + third.len() + 2 <= options.max_bytes,
        !ends_twice(first) && !ends_twice(second),
        with_source(Loaded { rules: Seq::empty(), size: 0 }, first, options) is Ok,
        with_source(
            with_source(Loaded { rules: Seq::empty(), size: 0 }, first, options)->Ok_0,
            second,
            options,
        ) is Ok,
        with_source(
            with_source(
                with_source(Loaded { rules: Seq::empty(), size: 0 }, first, options)->Ok_0,
                second,
                options,
            )->Ok_0,
            third,
            options,
        ) is Ok,
    ensures
        parsed(first.push(10) + second.push(10) + third, options) == Ok::<Seq<Rule>, Error>(
            (with_source(
                with_source(
                    with_source(Loaded { rules: Seq::empty(), size: 0 }, first, options)->Ok_0,
                    second,
                    options,
                )->Ok_0,
                third,
                options,
            )->Ok_0).rules,
        ),
{
    let none = Loaded { rules: Seq::empty(), size: 0 };
    let a = first.push(10);
    let b = second.push(10);
    lemma_closed_source(first, options);
    lemma_closed_source(second, options);
    let after_a = with_source(none, a, options);
    assert(after_a is Ok);
    let after_b = with_source(after_a->Ok_0, b, options);
    assert(after_b is Ok);
    lemma_sources_load_as_one(none, a, b, options);
    assert((a + b).last() == 10);
    assert(with_source(none, a + b, options) == after_b);
    assert(with_source(after_b->Ok_0, third, options) is Ok);
    lemma_sources_load_as_one(none, a + b, third, options);
    let all = with_source(none, a + b + third, options)->Ok_0;
    let whole = parsed(a + b + third, options)->Ok_0;
    assert(none.rules + whole =~= whole);
}

// ---------------------------------------------------------------------------
// Which blob is a source

/// The revision that names the blob of a mailmap: the configured one, or the
/// default of a repository without a working tree.
pub open spec fn blob_revision(configured: Option<Seq<u8>>, has_work_tree: bool) -> Option<Seq<u8>> {
    match configured {
        Some(revision) => Some(revision),
        None => if has_work_tree {
            None
        } else {
            Some(bytes::utf8("HEAD:.mailmap"@))
        },
    }
}

/// What resolving a revision gave.
#[derive(Debug, PartialEq, Eq)]
pub enum BlobRevision {
    Found(ObjectId),
    /// Nothing has the name.
    Missing(Error),
    /// The name is no revision.
    Invalid(Error),
    Failed(Error),
}

/// The blob that a resolved revision gives a mailmap: one that is not
/// configured may be absent.
pub open spec fn blob_source(found: BlobRevision, configured: bool) -> core::result::Result<
    Option<ObjectId>,
    Error,
> {
    match found {
        BlobRevision::Found(id) => Ok(Some(id)),
        BlobRevision::Missing(error) => if configured {
            Err(error)
        } else {
            Ok(None)
        },
        BlobRevision::Invalid(error) => if configured {
            Err(error)
        } else {
            Ok(None)
        },
        BlobRevision::Failed(error) => Err(error),
    }
}

/// Chooses the revision that names the blob of a mailmap.
pub fn mailmap_revision(configured: Option<&[u8]>, has_work_tree: bool) -> (r: Option<Vec<u8>>)
    ensures
        (match r {
            Some(revision) => Some(revision@),
            None => None,
        }) == blob_revision(
            match configured {
                Some(revision) => Some(revision@),
                None => None,
            },
            has_work_tree,
        ),
{
    match configured {
        Some(revision) => Some(bytes::to_vec(revision)),
        None => if has_work_tree {
            None
        } else {
            Some(bytes::to_vec("HEAD:.mailmap".as_bytes()))
        },
    }
}

/// Takes what resolving the revision of a mailmap's blob gave.
pub fn mailmap_blob(found: BlobRevision, configured: bool) -> (r: Result<Option<ObjectId>>)
    ensures
        r == blob_source(found, configured),
{
    match found {
        BlobRevision::Found(id) => Ok(Some(id)),
        BlobRevision::Missing(error) => if configured {
            Err(error)
        } else {
            Ok(None)
        },
        BlobRevision::Invalid(error) => if configured {
            Err(error)
        } else {
            Ok(None)
        },
        BlobRevision::Failed(error) => Err(error),
    }
}

/// Whether a rule is the last of some that are alike in a way.
pub open spec fn is_last(rules: Seq<Rule>, i: int, alike: spec_fn(Rule) -> bool) -> bool {
    &&& 0 <= i < rules.len() && alike(rules[i])
    &&& forall|j: int| i < j < rules.len() ==> !alike(#[trigger] rules[j])
}

/// Who an identity stands for: the last rule for its name and its email says
/// so; where there is none, the last rules for its email alone that give a
/// name and an email. What no rule gives stays as it is, and letter case does
/// not matter for finding a rule.
pub proof fn lemma_last_rule_decides(rules: Seq<Rule>, name: Seq<u8>, email: Seq<u8>)
    ensures
        ({
            let key = bytes::lower(email);
            let both = |r: Rule| r.key == key && r.old_name == Some(bytes::lower(name));
            let gives_name = |r: Rule| r.key == key && r.old_name is None && r.name is Some;
            let gives_email = |r: Rule| r.key == key && r.old_name is None && r.email is Some;
            let (new_name, new_email) = identity(rules, name, email);
            &&& forall|i: int| #[trigger]
                is_last(rules, i, both) ==> new_name == or(rules[i].name, name) && new_email == or(
                    rules[i].email,
                    email,
                )
            &&& (forall|i: int| 0 <= i < rules.len() ==> !both(#[trigger] rules[i])) ==> {
                &&& forall|i: int| #[trigger]
                    is_last(rules, i, gives_name) ==> new_name == rules[i].name->0
                &&& forall|i: int| #[trigger]
                    is_last(rules, i, gives_email) ==> new_email == rules[i].email->0
                &&& (forall|i: int| 0 <= i < rules.len() ==> !gives_name(#[trigger] rules[i]))
                    ==> new_name == name
                &&& (forall|i: int| 0 <= i < rules.len() ==> !gives_email(#[trigger] rules[i]))
                    ==> new_email == email
            }
        }),
{
    let key = bytes::lower(email);
    let low = bytes::lower(name);
    let n = rules.len() as int;
    let both = |r: Rule| r.key == key && r.old_name == Some(low);
    let gives_name = |r: Rule| r.key == key && r.old_name is None && r.name is Some;
    let gives_email = |r: Rule| r.key == key && r.old_name is None && r.email is Some;
    lemma_searches(rules, key, low, n);
    assert forall|i: int| #[trigger] is_last(rules, i, both) implies named_rule(rules, key, low, n)
        == Some(rules[i]) by {
        lemma_search_from(rules, key, low, i, n);
    }
    if forall|i: int| 0 <= i < rules.len() ==> !both(#[trigger] rules[i]) {
        assert forall|i: int| #[trigger] is_last(rules, i, gives_name) implies common_name(
            rules,
            key,
            n,
        ) == rules[i].name by {
            lemma_name_from(rules, key, i, n);
        }
        assert forall|i: int| #[trigger] is_last(rules, i, gives_email) implies common_email(
            rules,
            key,
            n,
        ) == rules[i].email by {
            lemma_email_from(rules, key, i, n);
        }
    }
}

proof fn lemma_searches(rules: Seq<Rule>, key: Seq<u8>, low: Seq<u8>, n: int)
    requires
        0 <= n <= rules.len(),
    ensures
        (forall|i: int|
            0 <= i < n ==> !((#[trigger] rules[i]).key == key && rules[i].old_name == Some(low)))
            ==> named_rule(rules, key, low, n) is None,
        (forall|i: int|
            0 <= i < n ==> !((#[trigger] rules[i]).key == key && rules[i].old_name is None
                && rules[i].name is Some)) ==> common_name(rules, key, n) is None,
        (forall|i: int|
            0 <= i < n ==> !((#[trigger] rules[i]).key == key && rules[i].old_name is None
                && rules[i].email is Some)) ==> common_email(rules, key, n) is None,
    decreases n,
{
    if n > 0 {
        lemma_searches(rules, key, low, n - 1);
    }
}

proof fn lemma_search_from(rules: Seq<Rule>, key: Seq<u8>, low: Seq<u8>, i: int, n: int)
    requires
        0 <= i < n <= rules.len(),
        rules[i].key == key && rules[i].old_name == Some(low),
        forall|j: int|
            i < j < n ==> !((#[trigger] rules[j]).key == key && rules[j].old_name == Some(low)),
    ensures
        named_rule(rules, key, low, n) == Some(rules[i]),
    decreases n,
{
    if i < n - 1 {
        lemma_search_from(rules, key, low, i, n - 1);
    }
}

proof fn lemma_name_from(rules: Seq<Rule>, key: Seq<u8>, i: int, n: int)
    requires
        0 <= i < n <= rules.len(),
        rules[i].key == key && rules[i].old_name is None && rules[i].name is Some,
        forall|j: int|
            i < j < n ==> !((#[trigger] rules[j]).key == key && rules[j].old_name is None
                && rules[j].name is Some),
    ensures
        common_name(rules, key, n) == rules[i].name,
    decreases n,
{
    if i < n - 1 {
        lemma_name_from(rules, key, i, n - 1);
    }
}

proof fn lemma_email_from(rules: Seq<Rule>, key: Seq<u8>, i: int, n: int)
    requires
        0 <= i < n <= rules.len(),
        rules[i].key == key && rules[i].old_name is None && rules[i].email is Some,
        forall|j: int|
            i < j < n ==> !((#[trigger] rules[j]).key == key && rules[j].old_name is None
                && rules[j].email is Some),
    ensures
        common_email(rules, key, n) == rules[i].email,
    decreases n,
{
    if i < n - 1 {
        lemma_email_from(rules, key, i, n - 1);
    }
}

} // verus!
