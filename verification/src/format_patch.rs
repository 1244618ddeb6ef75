//! Series of patches as mail messages.

use vstd::prelude::*;

use crate::bytes;
use crate::commit::{Commit, SignatureModel, Signature};
use crate::mail;
use crate::object;
use crate::object::ObjectId;
use crate::repository::Repository;
use crate::{Error, Result};

verus! {

/// When the subjects of a series are numbered.
#[derive(Clone, Copy, Debug, PartialEq, Eq, Structural)]
pub enum FormatPatchNumbering {
    Never,
    Auto,
    Always,
}

impl Default for FormatPatchNumbering {
    fn default() -> (r: Self)
        ensures
            r == FormatPatchNumbering::Auto,
    {
        FormatPatchNumbering::Auto
    }
}

/// How a series is rendered, named and limited.
pub struct FormatPatchOptions {
    /// How many patches a series holds at most.
    pub max_count: Option<usize>,
    pub numbering: FormatPatchNumbering,
    pub subject_prefix: Vec<u8>,
    pub reroll_count: Option<u32>,
    /// The text below the signature delimiter; none omits the delimiter.
    pub signature: Option<Vec<u8>>,
    pub filename_max_bytes: usize,
    pub max_subject_bytes: usize,
    pub max_message_bytes: usize,
    pub max_patch_bytes: usize,
    pub max_total_bytes: usize,
}

impl Default for FormatPatchOptions {
    fn default() -> (r: Self)
        ensures
            r.max_count is None,
            r.numbering == FormatPatchNumbering::Auto,
            r.subject_prefix@ == bytes::utf8("PATCH"@),
            r.reroll_count is None,
            r.signature is Some && r.signature->0@ == bytes::utf8("git-rs"@),
            r.filename_max_bytes == 64,
            r.max_subject_bytes == 16 * 1024,
            r.max_message_bytes == 16 * 1024 * 1024,
            r.max_patch_bytes == 1024 * 1024 * 1024,
            r.max_total_bytes == 1024 * 1024 * 1024,
    {
        FormatPatchOptions {
            max_count: None,
            numbering: FormatPatchNumbering::Auto,
            subject_prefix: bytes::to_vec("PATCH".as_bytes()),
            reroll_count: None,
            signature: Some(bytes::to_vec("git-rs".as_bytes())),
            filename_max_bytes: 64,
            max_subject_bytes: 16 * 1024,
            max_message_bytes: 16 * 1024 * 1024,
            max_patch_bytes: 1024 * 1024 * 1024,
            max_total_bytes: 1024 * 1024 * 1024,
        }
    }
}

/// A commit and the patches of its changes.
pub struct PatchSource {
    pub id: ObjectId,
    pub commit: Commit,
    pub changes: Vec<Vec<u8>>,
}

/// One mail message and a name for its file.
#[derive(Debug, PartialEq, Eq)]
pub struct FormatPatch {
    id: ObjectId,
    filename: Vec<u8>,
    data: Vec<u8>,
}

/// What a message says.
#[verifier::ext_equal]
pub struct PatchModel {
    pub id: Seq<u8>,
    pub filename: Seq<u8>,
    pub data: Seq<u8>,
}

impl View for FormatPatch {
    type V = PatchModel;

    closed spec fn view(&self) -> PatchModel {
        PatchModel { id: self.id@, filename: self.filename@, data: self.data@ }
    }
}

pub open spec fn models(list: Seq<FormatPatch>) -> Seq<PatchModel> {
    Seq::new(list.len(), |i: int| list[i]@)
}

impl FormatPatch {
    pub fn id(&self) -> (r: ObjectId)
        ensures
            r@ == self@.id,
    {
        self.id
    }

    pub fn filename(&self) -> (r: &[u8])
        ensures
            r@ == self@.filename,
    {
        self.filename.as_slice()
    }

    pub fn data(&self) -> (r: &[u8])
        ensures
            r@ == self@.data,
    {
        self.data.as_slice()
    }

    pub fn into_data(self) -> (r: Vec<u8>)
        ensures
            r@ == self@.data,
    {
        self.data
    }
}

// ---------------------------------------------------------------------------
// Subject and body

/// The subject that the lines from a place on extend, and where the body
/// begins: the lines up to the first empty one, joined by spaces.
pub open spec fn subject_from(message: Seq<u8>, cursor: int, done: Seq<u8>) -> (Seq<u8>, int)
    decreases message.len() - cursor,
{
    if cursor < 0 || cursor >= message.len() {
        (done, message.len() as int)
    } else {
        let end = bytes::index_from(message, 10, cursor);
        let line = mail::trimmed(message.subrange(cursor, end));
        let next = if end < message.len() {
            end + 1
        } else {
            end
        };
        if line.len() == 0 {
            (done, next)
        } else if next <= cursor {
            (done, next)
        } else {
            let more = if done.len() == 0 {
                line
            } else {
                done.push(32) + line
            };
            proof {
                bytes::lemma_index_from(message, 10, cursor);
            }
            subject_from(message, next, more)
        }
    }
}

/// The subject and the body of a message.
pub open spec fn message_parts(message: Seq<u8>, max_subject: usize) -> core::result::Result<
    (Seq<u8>, Seq<u8>),
    Error,
> {
    let (subject, body) = subject_from(message, 0, Seq::empty());
    if subject.len() > max_subject {
        Err(Error::ObjectTooLarge { declared: subject.len() as u64, limit: max_subject })
    } else {
        Ok(
            (
                if subject.len() == 0 {
                    bytes::utf8("(no subject)"@)
                } else {
                    subject
                },
                mail::unpadded_end(mail::unpadded_start(message.skip(body))),
            ),
        )
    }
}

fn split_message(message: &[u8], max_subject: usize) -> (r: Result<(Vec<u8>, Vec<u8>)>)
    ensures
        match message_parts(message@, max_subject) {
            Ok((subject, body)) => r is Ok && r->Ok_0.0@ == subject && r->Ok_0.1@ == body,
            Err(error) => r is Err && r->Err_0 == error,
        },
{
    let mut cursor: usize = 0;
    let mut subject: Vec<u8> = Vec::new();
    let mut body: usize = message.len();
    let ghost goal = subject_from(message@, 0, Seq::empty());
    assert(subject@ =~= Seq::empty());
    while cursor < message.len()
        invariant_except_break
            cursor <= message@.len(),
            body == message@.len(),
            goal == subject_from(message@, cursor as int, subject@),
        ensures
            body <= message@.len(),
            goal == (subject@, body as int),
        decreases message@.len() - cursor,
    {
        proof {
            bytes::lemma_index_from(message@, 10, cursor as int);
        }
        let end: usize = bytes::find_byte(message, 10, cursor);
        let line = mail::trim_ascii(&message[cursor..end]);
        let next: usize = if end < message.len() {
            end + 1
        } else {
            end
        };
        if line.len() == 0 {
            body = next;
            break;
        }
        let ghost before = subject@;
        if subject.len() > 0 {
            subject.push(32);
        }
        bytes::append(&mut subject, line);
        assert(subject@ =~= (if before.len() == 0 {
            line@
        } else {
            before.push(32) + line@
        }));
        cursor = next;
    }
    if subject.len() > max_subject {
        return Err(
            Error::ObjectTooLarge { declared: subject.len() as u64, limit: max_subject },
        );
    }
    let rest = &message[body..message.len()];
    assert(rest@ =~= message@.skip(body as int));
    let text = bytes::to_vec(mail::trim_blank_lines(rest));
    if subject.len() == 0 {
        Ok((bytes::to_vec("(no subject)".as_bytes()), text))
    } else {
        Ok((subject, text))
    }
}

// ---------------------------------------------------------------------------
// The message

/// What stands between the brackets of a subject.
pub open spec fn bracketed(options: FormatPatchOptions, number: nat, count: nat, numbered: bool) -> Seq<
    u8,
> {
    let versioned = match options.reroll_count {
        Some(version) => options.subject_prefix@ + bytes::utf8(" v"@) + bytes::decimal(
            version as nat,
        ),
        None => options.subject_prefix@,
    };
    if numbered {
        versioned + seq![32u8] + bytes::decimal(number) + seq![47u8] + bytes::decimal(count)
    } else {
        versioned
    }
}

/// A text that ends in a newline.
pub open spec fn ended(text: Seq<u8>) -> Seq<u8> {
    if text.len() > 0 && text.last() == 10 {
        text
    } else {
        text.push(10)
    }
}

/// What follows the subject line of a message.
pub open spec fn mail_tail(body: Seq<u8>, patch: Seq<u8>, signature: Option<Seq<u8>>) -> Seq<u8> {
    (if body.len() > 0 {
        ended(body).push(10)
    } else {
        Seq::empty()
    }) + bytes::utf8("---\n"@) + ended(patch) + (match signature {
        Some(text) => bytes::utf8("-- \n"@) + ended(text),
        None => Seq::empty(),
    })
}

pub open spec fn optional(text: Option<Vec<u8>>) -> Option<Seq<u8>> {
    match text {
        Some(text) => Some(text@),
        None => None,
    }
}

/// A mail message.
pub open spec fn mail_of(
    id: Seq<u8>,
    author: SignatureModel,
    subject: Seq<u8>,
    body: Seq<u8>,
    patch: Seq<u8>,
    number: nat,
    count: nat,
    numbered: bool,
    options: FormatPatchOptions,
) -> core::result::Result<Seq<u8>, Error> {
    match mail::mail_date(author) {
        Err(error) => Err(error),
        Ok(date) => Ok(
            bytes::utf8("From "@) + object::hex_of(id) + bytes::utf8(
                " Mon Sep 17 00:00:00 2001\nFrom: "@,
            ) + mail::display_name(author.name) + bytes::utf8(" <"@) + author.email
                + bytes::utf8(">\nDate: "@) + date + bytes::utf8("\nSubject: ["@) + bracketed(
                options,
                number,
                count,
                numbered,
            ) + bytes::utf8("] "@) + mail::header_text(subject) + bytes::utf8("\n\n"@)
                + mail_tail(body, patch, optional(options.signature)),
        ),
    }
}

fn push_ended(out: &mut Vec<u8>, text: &[u8])
    ensures
        final(out)@ == old(out)@ + ended(text@),
{
    bytes::append(out, text);
    let n: usize = text.len();
    if !(n > 0 && text[n - 1] == 10) {
        out.push(10);
    }
    assert(out@ =~= old(out)@ + ended(text@));
}

fn push_tail(out: &mut Vec<u8>, body: &[u8], patch: &[u8], signature: &Option<Vec<u8>>)
    ensures
        final(out)@ == old(out)@ + mail_tail(body@, patch@, optional(*signature)),
{
    let ghost start = out@;
    if body.len() > 0 {
        push_ended(out, body);
        out.push(10);
    }
    bytes::append(out, "---\n".as_bytes());
    push_ended(out, patch);
    match signature {
        Some(text) => {
            bytes::append(out, "-- \n".as_bytes());
            push_ended(out, text.as_slice());
        },
        None => {},
    }
    assert(out@ =~= start + mail_tail(body@, patch@, optional(*signature)));
}

fn push_bracketed(out: &mut Vec<u8>, options: &FormatPatchOptions, number: usize, count: usize, numbered: bool)
    ensures
        final(out)@ == old(out)@ + bracketed(*options, number as nat, count as nat, numbered),
{
    let ghost start = out@;
    bytes::append(out, options.subject_prefix.as_slice());
    match options.reroll_count {
        Some(version) => {
            bytes::append(out, " v".as_bytes());
            bytes::push_decimal(out, version as u64);
        },
        None => {},
    }
    if numbered {
        out.push(32);
        bytes::push_decimal(out, number as u64);
        out.push(47);
        bytes::push_decimal(out, count as u64);
    }
    assert(out@ =~= start + bracketed(*options, number as nat, count as nat, numbered));
}

fn render_mail(
    id: ObjectId,
    author: &Signature,
    subject: &[u8],
    body: &[u8],
    patch: &[u8],
    number: usize,
    count: usize,
    numbered: bool,
    options: &FormatPatchOptions,
) -> (r: Result<Vec<u8>>)
    ensures
        match mail_of(
            id@,
            author@,
            subject@,
            body@,
            patch@,
            number as nat,
            count as nat,
            numbered,
            *options,
        ) {
            Ok(data) => r is Ok && r->Ok_0@ == data,
            Err(error) => r is Err && r->Err_0 == error,
        },
{
    let mut out = bytes::to_vec("From ".as_bytes());
    let hex = id.to_hex();
    bytes::append(&mut out, hex.as_slice());
    bytes::append(&mut out, " Mon Sep 17 00:00:00 2001\nFrom: ".as_bytes());
    mail::push_display_name(&mut out, author.name());
    bytes::append(&mut out, " <".as_bytes());
    bytes::append(&mut out, author.email());
    bytes::append(&mut out, ">\nDate: ".as_bytes());
    mail::push_mail_date(&mut out, author)?;
    bytes::append(&mut out, "\nSubject: [".as_bytes());
    push_bracketed(&mut out, options, number, count, numbered);
    bytes::append(&mut out, "] ".as_bytes());
    mail::push_header_text(&mut out, subject);
    bytes::append(&mut out, "\n\n".as_bytes());
    push_tail(&mut out, body, patch, &options.signature);
    assert(out@ =~= mail_of(
        id@,
        author@,
        subject@,
        body@,
        patch@,
        number as nat,
        count as nat,
        numbered,
        *options,
    )->Ok_0);
    Ok(out)
}

// ---------------------------------------------------------------------------
// The name of the file

pub open spec fn is_word(b: u8) -> bool {
    48 <= b <= 57 || 65 <= b <= 90 || 97 <= b <= 122
}

/// The words of the first `n` bytes of a subject, joined by dashes, and
/// whether a dash is due.
pub open spec fn slug_of(subject: Seq<u8>, n: int) -> (Seq<u8>, bool)
    decreases n,
{
    if n <= 0 {
        (Seq::empty(), false)
    } else {
        let (slug, due) = slug_of(subject, n - 1);
        let b = subject[n - 1];
        if !is_word(b) {
            (slug, true)
        } else if due && slug.len() > 0 {
            (slug.push(45).push(b), false)
        } else {
            (slug.push(b), false)
        }
    }
}

/// A number in decimal, filled with zeros to a width.
pub open spec fn padded(n: nat, width: nat) -> Seq<u8> {
    let digits = bytes::decimal(n);
    if digits.len() >= width {
        digits
    } else {
        Seq::new((width - digits.len()) as nat, |i: int| 48u8) + digits
    }
}

/// A name without dashes at its end.
pub open spec fn undashed(s: Seq<u8>) -> Seq<u8>
    decreases s.len(),
{
    if s.len() > 0 && s.last() == 45 {
        undashed(s.drop_last())
    } else {
        s
    }
}

/// What stands before the words of a file's name.
pub open spec fn name_prefix(number: nat, width: nat, version: Option<u32>) -> Seq<u8> {
    match version {
        Some(version) => bytes::utf8("v"@) + bytes::decimal(version as nat) + seq![45u8] + padded(
            number,
            width,
        ) + seq![45u8],
        None => padded(number, width) + seq![45u8],
    }
}

/// The name of the file of a patch.
pub open spec fn file_name(
    number: nat,
    width: nat,
    subject: Seq<u8>,
    version: Option<u32>,
    max: nat,
) -> core::result::Result<Seq<u8>, Error> {
    let words = slug_of(subject, subject.len() as int).0;
    let slug = if words.len() == 0 {
        bytes::utf8("patch"@)
    } else {
        words
    };
    let prefix = name_prefix(number, width, version);
    let room = max - prefix.len() - bytes::utf8(".patch"@).len();
    if room <= 0 {
        Err(Error::InvalidRepository("filename limit cannot hold patch numbering"))
    } else {
        Ok(
            prefix + undashed(
                if slug.len() <= room {
                    slug
                } else {
                    slug.take(room)
                },
            ) + bytes::utf8(".patch"@),
        )
    }
}

fn make_slug(subject: &[u8]) -> (r: Vec<u8>)
    ensures
        r@ == ({
            let words = slug_of(subject@, subject@.len() as int).0;
            if words.len() == 0 {
                bytes::utf8("patch"@)
            } else {
                words
            }
        }),
{
    let mut slug: Vec<u8> = Vec::new();
    let mut due = false;
    let mut i: usize = 0;
    assert(slug@ =~= Seq::empty());
    while i < subject.len()
        invariant
            i <= subject@.len(),
            slug_of(subject@, i as int) == (slug@, due),
        decreases subject@.len() - i,
    {
        let b: u8 = subject[i];
        if (48 <= b && b <= 57) || (65 <= b && b <= 90) || (97 <= b && b <= 122) {
            if due && slug.len() > 0 {
                slug.push(45);
            }
            slug.push(b);
            due = false;
        } else {
            due = true;
        }
        i += 1;
    }
    if slug.len() == 0 {
        return bytes::to_vec("patch".as_bytes());
    }
    slug
}

fn push_padded(out: &mut Vec<u8>, n: usize, width: usize)
    ensures
        final(out)@ == old(out)@ + padded(n as nat, width as nat),
{
    let ghost start = out@;
    let mut digits: Vec<u8> = Vec::new();
    bytes::push_decimal(&mut digits, n as u64);
    assert(digits@ =~= bytes::decimal(n as nat));
    let mut k: usize = digits.len();
    while k < width
        invariant
            digits@.len() <= k,
            out@.len() == start.len() + k - digits@.len(),
            k <= width || k == digits@.len(),
            forall|j: int| 0 <= j < start.len() ==> out@[j] == start[j],
            forall|j: int| start.len() <= j < out@.len() ==> out@[j] == 48,
        decreases width - k,
    {
        out.push(48);
        k += 1;
    }
    bytes::append(out, digits.as_slice());
    assert(out@ =~= start + padded(n as nat, width as nat));
}

fn format_filename(
    number: usize,
    width: usize,
    subject: &[u8],
    version: Option<u32>,
    max_bytes: usize,
) -> (r: Result<Vec<u8>>)
    ensures
        match file_name(number as nat, width as nat, subject@, version, max_bytes as nat) {
            Ok(name) => r is Ok && r->Ok_0@ == name,
            Err(error) => r is Err && r->Err_0 == error,
        },
{
    let mut slug = make_slug(subject);
    let mut out: Vec<u8> = Vec::new();
    match version {
        Some(version) => {
            bytes::append(&mut out, "v".as_bytes());
            bytes::push_decimal(&mut out, version as u64);
            out.push(45);
        },
        None => {},
    }
    push_padded(&mut out, number, width);
    out.push(45);
    let ghost prefix = name_prefix(number as nat, width as nat, version);
    assert(out@ =~= prefix);
    let suffix = ".patch".as_bytes();
    if out.len() >= max_bytes || suffix.len() >= max_bytes - out.len() {
        return Err(Error::InvalidRepository("filename limit cannot hold patch numbering"));
    }
    let room: usize = max_bytes - out.len() - suffix.len();
    let ghost whole = slug@;
    if slug.len() > room {
        slug.truncate(room);
        assert(slug@ =~= whole.take(room as int));
    }
    let ghost short = slug@;
    while slug.len() > 0 && slug[slug.len() - 1] == 45
        invariant
            undashed(short) == undashed(slug@),
        decreases slug@.len(),
    {
        let ghost before = slug@;
        let _ = slug.pop();
        assert(slug@ =~= before.drop_last());
    }
    assert(undashed(slug@) == slug@);
    bytes::append(&mut out, slug.as_slice());
    bytes::append(&mut out, suffix);
    assert(out@ =~= prefix + undashed(short) + suffix@);
    Ok(out)
}

// ---------------------------------------------------------------------------
// The series

/// Why options are refused.
pub open spec fn options_fault(options: FormatPatchOptions) -> Option<Error> {
    let prefix = options.subject_prefix@;
    if prefix.len() == 0 || prefix.contains(13) || prefix.contains(10) || prefix.contains(0)
        || prefix.contains(91) || prefix.contains(93) || options.filename_max_bytes < 12 {
        Some(Error::InvalidRepository("invalid format-patch options"))
    } else if options.signature is Some && options.signature->0@.contains(0) {
        Some(Error::InvalidRepository("format-patch signature contains NUL"))
    } else {
        None
    }
}

/// The commits that a series shows, from walked ones with the newest first:
/// merges are left out, and the oldest comes first.
pub open spec fn shown(revisions: Seq<PatchSource>, max_count: Option<usize>) -> Seq<PatchSource> {
    let single = revisions.filter(|r: PatchSource| r.commit@.parents.len() <= 1);
    let cut = match max_count {
        Some(limit) => if limit < single.len() {
            single.take(limit as int)
        } else {
            single
        },
        None => single,
    };
    cut.reverse()
}

/// The first `n` patches of a commit, one behind the other.
pub open spec fn patch_of(changes: Seq<Vec<u8>>, max: usize, n: int) -> core::result::Result<
    Seq<u8>,
    Error,
>
    decreases n,
{
    if n <= 0 {
        Ok(Seq::empty())
    } else {
        match patch_of(changes, max, n - 1) {
            Err(error) => Err(error),
            Ok(before) => {
                let next = before.len() + changes[n - 1]@.len();
                if next > usize::MAX {
                    Err(Error::InvalidRepository("format-patch size overflow"))
                } else if next > max {
                    Err(Error::ObjectTooLarge { declared: next as u64, limit: max })
                } else {
                    Ok(before + changes[n - 1]@)
                }
            },
        }
    }
}

pub open spec fn is_numbered(numbering: FormatPatchNumbering, count: nat) -> bool {
    match numbering {
        FormatPatchNumbering::Never => false,
        FormatPatchNumbering::Auto => count > 1,
        FormatPatchNumbering::Always => true,
    }
}

/// How many digits the numbers of a series have.
pub open spec fn number_width(count: nat) -> nat {
    let digits = bytes::decimal(
        if count == 0 {
            1
        } else {
            count
        },
    ).len();
    if digits < 4 {
        4
    } else {
        digits
    }
}

/// The message of a commit of a series, with its subject.
pub open spec fn message_of(
    source: PatchSource,
    number: nat,
    count: nat,
    options: FormatPatchOptions,
) -> core::result::Result<(Seq<u8>, Seq<u8>), Error> {
    let m = source.commit@;
    if m.message.len() > options.max_message_bytes {
        Err(
            Error::ObjectTooLarge {
                declared: m.message.len() as u64,
                limit: options.max_message_bytes,
            },
        )
    } else {
        match message_parts(m.message, options.max_subject_bytes) {
            Err(error) => Err(error),
            Ok((subject, body)) => match patch_of(
                source.changes@,
                options.max_patch_bytes,
                source.changes@.len() as int,
            ) {
                Err(error) => Err(error),
                Ok(patch) => match mail_of(
                    source.id@,
                    m.author,
                    subject,
                    body,
                    patch,
                    number,
                    count,
                    is_numbered(options.numbering, count),
                    options,
                ) {
                    Err(error) => Err(error),
                    Ok(data) => Ok((subject, data)),
                },
            },
        }
    }
}

/// The first `n` messages of a series and their size.
pub open spec fn series(list: Seq<PatchSource>, options: FormatPatchOptions, n: int) -> core::result::Result<
    (Seq<PatchModel>, nat),
    Error,
>
    decreases n,
{
    if n <= 0 {
        Ok((Seq::empty(), 0))
    } else {
        match series(list, options, n - 1) {
            Err(error) => Err(error),
            Ok((before, size)) => match message_of(
                list[n - 1],
                n as nat,
                list.len(),
                options,
            ) {
                Err(error) => Err(error),
                Ok((subject, data)) => {
                    let total = size + data.len();
                    if total > usize::MAX {
                        Err(Error::InvalidRepository("patch series size overflow"))
                    } else if total > options.max_total_bytes {
                        Err(
                            Error::ObjectTooLarge {
                                declared: total as u64,
                                limit: options.max_total_bytes,
                            },
                        )
                    } else {
                        match file_name(
                            n as nat,
                            number_width(list.len()),
                            subject,
                            options.reroll_count,
                            options.filename_max_bytes as nat,
                        ) {
                            Err(error) => Err(error),
                            Ok(filename) => Ok(
                                (
                                    before.push(PatchModel { id: list[n - 1].id@, filename, data }),
                                    total,
                                ),
                            ),
                        }
                    }
                },
            },
        }
    }
}

fn validate_options(options: &FormatPatchOptions) -> (r: Result<()>)
    ensures
        match options_fault(*options) {
            Some(error) => r is Err && r->Err_0 == error,
            None => r is Ok,
        },
{
    let prefix = options.subject_prefix.as_slice();
    if prefix.len() == 0 || bytes::contains_byte(prefix, 13) || bytes::contains_byte(prefix, 10)
        || bytes::contains_byte(prefix, 0) || bytes::contains_byte(prefix, 91)
        || bytes::contains_byte(prefix, 93) || options.filename_max_bytes < 12 {
        return Err(Error::InvalidRepository("invalid format-patch options"));
    }
    match &options.signature {
        Some(text) => {
            if bytes::contains_byte(text.as_slice(), 0) {
                return Err(Error::InvalidRepository("format-patch signature contains NUL"));
            }
        },
        None => {},
    }
    Ok(())
}

proof fn lemma_patch_persists(changes: Seq<Vec<u8>>, max: usize, n: int, m: int)
    requires
        0 <= n <= m,
        patch_of(changes, max, n) is Err,
    ensures
        patch_of(changes, max, m) == patch_of(changes, max, n),
    decreases m - n,
{
    if n < m {
        lemma_patch_persists(changes, max, n, m - 1);
    }
}

fn join_changes(changes: &Vec<Vec<u8>>, max: usize) -> (r: Result<Vec<u8>>)
    ensures
        match patch_of(changes@, max, changes@.len() as int) {
            Ok(patch) => r is Ok && r->Ok_0@ == patch,
            Err(error) => r is Err && r->Err_0 == error,
        },
{
    let mut out: Vec<u8> = Vec::new();
    let mut i: usize = 0;
    assert(out@ =~= Seq::empty());
    while i < changes.len()
        invariant
            i <= changes@.len(),
            patch_of(changes@, max, i as int) == Ok::<Seq<u8>, Error>(out@),
        decreases changes@.len() - i,
    {
        proof {
            if patch_of(changes@, max, i + 1) is Err {
                lemma_patch_persists(changes@, max, i + 1, changes@.len() as int);
            }
        }
        match out.len().checked_add(changes[i].len()) {
            None => return Err(Error::InvalidRepository("format-patch size overflow")),
            Some(next) => {
                if next > max {
                    return Err(Error::ObjectTooLarge { declared: next as u64, limit: max });
                }
            },
        }
        bytes::append(&mut out, changes[i].as_slice());
        i += 1;
    }
    Ok(out)
}

proof fn lemma_series_persists(list: Seq<PatchSource>, options: FormatPatchOptions, n: int, m: int)
    requires
        0 <= n <= m,
        series(list, options, n) is Err,
    ensures
        series(list, options, m) == series(list, options, n),
    decreases m - n,
{
    if n < m {
        lemma_series_persists(list, options, n, m - 1);
    }
}

fn make_message(source: &PatchSource, number: usize, count: usize, options: &FormatPatchOptions) -> (r: Result<
    (Vec<u8>, Vec<u8>),
>)
    ensures
        match message_of(*source, number as nat, count as nat, *options) {
            Ok((subject, data)) => r is Ok && r->Ok_0.0@ == subject && r->Ok_0.1@ == data,
            Err(error) => r is Err && r->Err_0 == error,
        },
{
    let message = source.commit.message();
    if message.len() > options.max_message_bytes {
        return Err(
            Error::ObjectTooLarge {
                declared: message.len() as u64,
                limit: options.max_message_bytes,
            },
        );
    }
    let (subject, body) = split_message(message, options.max_subject_bytes)?;
    let patch = join_changes(&source.changes, options.max_patch_bytes)?;
    let numbered = match options.numbering {
        FormatPatchNumbering::Never => false,
        FormatPatchNumbering::Auto => count > 1,
        FormatPatchNumbering::Always => true,
    };
    let data = render_mail(
        source.id,
        source.commit.author(),
        subject.as_slice(),
        body.as_slice(),
        patch.as_slice(),
        number,
        count,
        numbered,
        options,
    )?;
    Ok((subject, data))
}

/// The places of the commits that a series shows, the newest first.
fn choose_shown(revisions: &[PatchSource], max_count: Option<usize>) -> (r: Vec<usize>)
    ensures
        r@.len() == shown(revisions@, max_count).len(),
        forall|k: int|
            0 <= k < r@.len() ==> (#[trigger] r@[k]) < revisions@.len() && revisions@[r@[k] as int]
                == shown(revisions@, max_count)[r@.len() - 1 - k],
{
    let ghost keep = |r: PatchSource| r.commit@.parents.len() <= 1;
    let ghost all = revisions@;
    let mut out: Vec<usize> = Vec::new();
    let mut i: usize = 0;
    proof {
        reveal(Seq::filter);
        assert(all.take(0).filter(keep) =~= Seq::empty());
    }
    while i < revisions.len()
        invariant
            i <= revisions@.len(),
            all == revisions@,
            keep == (|r: PatchSource| r.commit@.parents.len() <= 1),
            out@.len() == all.take(i as int).filter(keep).len(),
            forall|k: int|
                0 <= k < out@.len() ==> (#[trigger] out@[k]) < all.len() && all[out@[k] as int]
                    == all.take(i as int).filter(keep)[k],
        decreases revisions@.len() - i,
    {
        proof {
            reveal(Seq::filter);
            assert(all.take(i + 1).drop_last() =~= all.take(i as int));
            assert(all.take(i + 1).last() == all[i as int]);
        }
        let parents = revisions[i].commit.parents();
        assert(crate::commit::raw_ids(parents@).len() == parents@.len());
        if parents.len() <= 1 {
            out.push(i);
        }
        i += 1;
    }
    assert(all.take(i as int) =~= all);
    match max_count {
        Some(limit) => {
            if limit < out.len() {
                out.truncate(limit);
            }
        },
        None => {},
    }
    out
}

impl Repository {
    /// Formats walked commits, given with the newest first, as mail messages with
    /// the oldest first. Merges are left out.
    pub fn format_patches(&self, revisions: &[PatchSource], options: &FormatPatchOptions) -> (r: Result<
        Vec<FormatPatch>,
    >)
        ensures
            match options_fault(*options) {
                Some(error) => r is Err && r->Err_0 == error,
                None => {
                    let list = shown(revisions@, options.max_count);
                    match series(list, *options, list.len() as int) {
                        Ok((messages, _)) => r is Ok && models(r->Ok_0@) == messages,
                        Err(error) => r is Err && r->Err_0 == error,
                    }
                },
            },
            r matches Ok(patches) ==> all_credited(models(patches@), revisions@),
    {
        validate_options(options)?;
        let places = choose_shown(revisions, options.max_count);
        let ghost list = shown(revisions@, options.max_count);
        let count: usize = places.len();
        let mut digits: Vec<u8> = Vec::new();
        bytes::push_decimal(
            &mut digits,
            if count == 0 {
                1
            } else {
                count as u64
            },
        );
        let width: usize = if digits.len() < 4 {
            4
        } else {
            digits.len()
        };
        assert(digits@ =~= bytes::decimal(
            if count == 0 {
                1
            } else {
                count as nat
            },
        ));
        let mut total: usize = 0;
        let mut out: Vec<FormatPatch> = Vec::new();
        assert(models(out@) =~= Seq::empty());
        let mut i: usize = 0;
        while i < count
            invariant
                i <= count,
                count == places@.len(),
                count == list.len(),
                list == shown(revisions@, options.max_count),
                options_fault(*options) is None,
                width == number_width(count as nat),
                forall|k: int|
                    0 <= k < places@.len() ==> (#[trigger] places@[k]) < revisions@.len()
                        && revisions@[places@[k] as int] == list[places@.len() - 1 - k],
                series(list, *options, i as int) == Ok::<(Seq<PatchModel>, nat), Error>(
                    (models(out@), total as nat),
                ),
            decreases count - i,
        {
            proof {
                if series(list, *options, i + 1) is Err {
                    lemma_series_persists(list, *options, i + 1, count as int);
                }
            }
            let source = &revisions[places[count - 1 - i]];
            assert(*source == list[i as int]);
            let (subject, data) = make_message(source, i + 1, count, options)?;
            match total.checked_add(data.len()) {
                None => return Err(Error::InvalidRepository("patch series size overflow")),
                Some(next) => {
                    if next > options.max_total_bytes {
                        return Err(
                            Error::ObjectTooLarge {
                                declared: next as u64,
                                limit: options.max_total_bytes,
                            },
                        );
                    }
                    total = next;
                },
            }
            let filename = format_filename(
                i + 1,
                width,
                subject.as_slice(),
                options.reroll_count,
                options.filename_max_bytes,
            )?;
            let ghost before = out@;
            out.push(FormatPatch { id: source.id, filename, data });
            assert(models(out@) =~= models(before).push(out@.last()@));
            i += 1;
        }
        proof {
            lemma_all_credited(revisions@, *options);
        }
        Ok(out)
    }
}

// ---------------------------------------------------------------------------
// Laws

/// A byte that can stand in the name of a file without meaning anything.
pub open spec fn is_tame(b: u8) -> bool {
    is_word(b) || b == 45 || b == 46
}

pub open spec fn all_tame(s: Seq<u8>) -> bool {
    forall|i: int| 0 <= i < s.len() ==> is_tame(#[trigger] s[i])
}

/// The name of a patch is made of letters, digits, dashes and dots alone, and
/// is no longer than asked for.
pub proof fn lemma_file_name_is_tame(
    number: nat,
    width: nat,
    subject: Seq<u8>,
    version: Option<u32>,
    max: nat,
)
    requires
        file_name(number, width, subject, version, max) is Ok,
    ensures
        all_tame(file_name(number, width, subject, version, max)->Ok_0),
        file_name(number, width, subject, version, max)->Ok_0.len() <= max,
{
    reveal_strlit("patch");
    reveal_strlit(".patch");
    reveal_strlit("v");
    bytes::lemma_ascii("patch"@);
    bytes::lemma_ascii(".patch"@);
    bytes::lemma_ascii("v"@);
    lemma_slug_is_tame(subject, subject.len() as int);
    lemma_decimal_is_tame(number);
    if version is Some {
        lemma_decimal_is_tame(version->0 as nat);
    }
    let words = slug_of(subject, subject.len() as int).0;
    let slug = if words.len() == 0 {
        bytes::utf8("patch"@)
    } else {
        words
    };
    assert(all_tame(slug));
    let prefix = name_prefix(number, width, version);
    let digits = padded(number, width);
    assert(all_tame(digits));
    assert(all_tame(prefix));
    let room = max - prefix.len() - 6;
    let kept = if slug.len() <= room {
        slug
    } else {
        slug.take(room)
    };
    assert(all_tame(kept));
    lemma_undashed_is_tame(kept);
}

proof fn lemma_slug_is_tame(subject: Seq<u8>, n: int)
    ensures
        all_tame(slug_of(subject, n).0),
    decreases n,
{
    if n > 0 {
        lemma_slug_is_tame(subject, n - 1);
    }
}

proof fn lemma_decimal_is_tame(n: nat)
    ensures
        all_tame(bytes::decimal(n)),
{
    bytes::lemma_decimal(n);
    assert forall|i: int| 0 <= i < bytes::decimal(n).len() implies is_tame(
        #[trigger] bytes::decimal(n)[i],
    ) by {
        assert(bytes::is_digit(bytes::decimal(n)[i]));
    }
}

proof fn lemma_undashed_is_tame(s: Seq<u8>)
    requires
        all_tame(s),
    ensures
        all_tame(undashed(s)),
        undashed(s).len() <= s.len(),
    decreases s.len(),
{
    if s.len() > 0 && s.last() == 45 {
        lemma_undashed_is_tame(s.drop_last());
    }
}

/// Whether a mail names a person as the author of a commit, with the person's
/// time: its first line names the commit, and the next two the author.
#[verifier::opaque]
pub open spec fn names_author(data: Seq<u8>, id: Seq<u8>, author: SignatureModel) -> bool {
    let first = bytes::utf8("From "@) + object::hex_of(id) + bytes::utf8(
        " Mon Sep 17 00:00:00 2001"@,
    );
    mail::mail_date(author) matches Ok(date) && bytes::has_prefix(
        data,
        first + bytes::utf8("\nFrom: "@) + mail::display_name(author.name) + bytes::utf8(" <"@)
            + author.email + bytes::utf8(">\nDate: "@) + date + bytes::utf8("\nSubject: ["@),
    )
}

/// Whether the subject line of a mail bears a label and a subject.
pub open spec fn has_subject(data: Seq<u8>, label: Seq<u8>, subject: Seq<u8>) -> bool {
    exists|front: Seq<u8>, rest: Seq<u8>|
        data == #[trigger] (front + bytes::utf8("\nSubject: ["@) + label + bytes::utf8("] "@)
            + mail::header_text(subject) + bytes::utf8("\n\n"@) + rest)
}

/// Whether a mail ends in a patch, and in a signature where there is one.
pub open spec fn carries(data: Seq<u8>, patch: Seq<u8>, signature: Option<Seq<u8>>) -> bool {
    let line = |text: Seq<u8>|
        if text.len() > 0 && text.last() == 10 {
            text
        } else {
            text.push(10)
        };
    bytes::has_suffix(
        data,
        bytes::utf8("---\n"@) + line(patch) + (match signature {
            Some(text) => bytes::utf8("-- \n"@) + line(text),
            None => Seq::empty(),
        }),
    )
}

proof fn lemma_prefix_of(front: Seq<u8>, rest: Seq<u8>)
    ensures
        bytes::has_prefix(front + rest, front),
        bytes::has_suffix(front + rest, rest),
{
    assert((front + rest).take(front.len() as int) =~= front);
    assert((front + rest).skip((front + rest).len() - rest.len()) =~= rest);
}

proof fn lemma_author_line(
    id: Seq<u8>,
    author: SignatureModel,
    date: Seq<u8>,
    rest: Seq<u8>,
    data: Seq<u8>,
)
    requires
        mail::mail_date(author) == Ok::<Seq<u8>, Error>(date),
        data == bytes::utf8("From "@) + object::hex_of(id) + bytes::utf8(
            " Mon Sep 17 00:00:00 2001\nFrom: "@,
        ) + mail::display_name(author.name) + bytes::utf8(" <"@) + author.email + bytes::utf8(
            ">\nDate: "@,
        ) + date + bytes::utf8("\nSubject: ["@) + rest,
    ensures
        names_author(data, id, author),
{
    reveal(names_author);
    reveal_strlit(" Mon Sep 17 00:00:00 2001\nFrom: ");
    reveal_strlit(" Mon Sep 17 00:00:00 2001");
    reveal_strlit("\nFrom: ");
    bytes::lemma_ascii(" Mon Sep 17 00:00:00 2001\nFrom: "@);
    bytes::lemma_ascii(" Mon Sep 17 00:00:00 2001"@);
    bytes::lemma_ascii("\nFrom: "@);
    let a = bytes::utf8(" Mon Sep 17 00:00:00 2001"@);
    let b = bytes::utf8("\nFrom: "@);
    assert(bytes::utf8(" Mon Sep 17 00:00:00 2001\nFrom: "@) =~= a + b);
    let start = bytes::utf8("From "@) + object::hex_of(id);
    assert(start + (a + b) =~= start + a + b);
    let head = start + a + b + mail::display_name(author.name) + bytes::utf8(" <"@) + author.email
        + bytes::utf8(">\nDate: "@) + date + bytes::utf8("\nSubject: ["@);
    lemma_prefix_of(head, rest);
}

proof fn lemma_subject_line(
    people: Seq<u8>,
    label: Seq<u8>,
    subject: Seq<u8>,
    tail: Seq<u8>,
    data: Seq<u8>,
)
    requires
        data == people + bytes::utf8("\nSubject: ["@) + label + bytes::utf8("] "@)
            + mail::header_text(subject) + bytes::utf8("\n\n"@) + tail,
    ensures
        has_subject(data, label, subject),
{
}

proof fn lemma_label(options: FormatPatchOptions, number: nat, count: nat)
    ensures
        ({
            let version = match options.reroll_count {
                Some(version) => bytes::utf8(" v"@) + bytes::decimal(version as nat),
                None => Seq::empty(),
            };
            let plain = options.subject_prefix@ + version;
            &&& bracketed(options, number, count, false) == plain
            &&& bracketed(options, number, count, true) == plain + bytes::utf8(" "@)
                + bytes::decimal(number) + bytes::utf8("/"@) + bytes::decimal(count)
        }),
{
    reveal_strlit(" ");
    reveal_strlit("/");
    bytes::lemma_ascii(" "@);
    bytes::lemma_ascii("/"@);
    assert(bytes::utf8(" "@) =~= seq![32u8]);
    assert(bytes::utf8("/"@) =~= seq![47u8]);
    let version = match options.reroll_count {
        Some(version) => bytes::utf8(" v"@) + bytes::decimal(version as nat),
        None => Seq::empty(),
    };
    assert(bracketed(options, number, count, false) =~= options.subject_prefix@ + version);
}

proof fn lemma_ends_in_patch(
    front: Seq<u8>,
    body: Seq<u8>,
    patch: Seq<u8>,
    signature: Option<Seq<u8>>,
)
    ensures
        carries(front + mail_tail(body, patch, signature), patch, signature),
{
    let above = if body.len() > 0 {
        ended(body).push(10)
    } else {
        Seq::empty()
    };
    let end = match signature {
        Some(text) => bytes::utf8("-- \n"@) + ended(text),
        None => Seq::empty(),
    };
    let last = bytes::utf8("---\n"@) + ended(patch) + end;
    assert(mail_tail(body, patch, signature) =~= above + last);
    assert(front + (above + last) =~= (front + above) + last);
    lemma_prefix_of(front + above, last);
}

/// The mail of a commit names the author of the commit and the author's time,
/// bears the subject, and ends in the patch.
pub proof fn lemma_mail_credits_the_author(
    source: PatchSource,
    number: nat,
    count: nat,
    options: FormatPatchOptions,
)
    ensures
        message_of(source, number, count, options) matches Ok((subject, data)) ==> {
            let version = match options.reroll_count {
                Some(version) => bytes::utf8(" v"@) + bytes::decimal(version as nat),
                None => Seq::empty(),
            };
            let plain = options.subject_prefix@ + version;
            &&& names_author(data, source.id@, source.commit@.author)
            &&& options.numbering is Never || (options.numbering is Auto && count <= 1)
                ==> has_subject(data, plain, subject)
            &&& options.numbering is Always || (options.numbering is Auto && count > 1)
                ==> has_subject(
                data,
                plain + bytes::utf8(" "@) + bytes::decimal(number) + bytes::utf8("/"@)
                    + bytes::decimal(count),
                subject,
            )
            &&& patch_of(
                source.changes@,
                options.max_patch_bytes,
                source.changes@.len() as int,
            ) matches Ok(patch) && carries(
                data,
                patch,
                match options.signature {
                    Some(text) => Some(text@),
                    None => None,
                },
            )
        },
{
    if message_of(source, number, count, options) is Ok {
        let (subject, data) = message_of(source, number, count, options)->Ok_0;
        let author = source.commit@.author;
        let date = mail::mail_date(author)->Ok_0;
        let body = (message_parts(source.commit@.message, options.max_subject_bytes)->Ok_0).1;
        let patch = patch_of(
            source.changes@,
            options.max_patch_bytes,
            source.changes@.len() as int,
        )->Ok_0;
        let label = bracketed(options, number, count, is_numbered(options.numbering, count));
        let tail = mail_tail(body, patch, optional(options.signature));
        let people = bytes::utf8("From "@) + object::hex_of(source.id@) + bytes::utf8(
            " Mon Sep 17 00:00:00 2001\nFrom: "@,
        ) + mail::display_name(author.name) + bytes::utf8(" <"@) + author.email + bytes::utf8(
            ">\nDate: "@,
        ) + date;
        let head = people + bytes::utf8("\nSubject: ["@);
        let text = label + bytes::utf8("] "@) + mail::header_text(subject) + bytes::utf8("\n\n"@)
            + tail;
        lemma_regrouped(
            head,
            label,
            bytes::utf8("] "@),
            mail::header_text(subject),
            bytes::utf8("\n\n"@),
            tail,
        );
        assert(data == head + text);
        lemma_author_line(source.id@, author, date, text, data);
        lemma_subject_line(people, label, subject, tail, data);
        lemma_label(options, number, count);
        lemma_ends_in_patch(
            head + label + bytes::utf8("] "@) + mail::header_text(subject) + bytes::utf8(
                "\n\n"@,
            ),
            body,
            patch,
            optional(options.signature),
        );
    }
}

proof fn lemma_regrouped(
    a: Seq<u8>,
    b: Seq<u8>,
    c: Seq<u8>,
    d: Seq<u8>,
    e: Seq<u8>,
    f: Seq<u8>,
)
    ensures
        a + b + c + d + e + f == a + (b + c + d + e + f),
{
    assert(a + b + c + d + e + f =~= a + (b + c + d + e + f));
}

/// Who committed does not show: commits that differ in the committer alone, or
/// in their trees, give the same mail.
pub proof fn lemma_committer_does_not_show(
    a: PatchSource,
    b: PatchSource,
    number: nat,
    count: nat,
    options: FormatPatchOptions,
)
    requires
        a.id@ == b.id@,
        a.commit@.author == b.commit@.author,
        a.commit@.message == b.commit@.message,
        a.changes@ == b.changes@,
    ensures
        message_of(a, number, count, options) == message_of(b, number, count, options),
{
}

/// A name of ASCII letters alone stands in a mail as it is.
pub proof fn lemma_plain_name_shows(name: Seq<u8>)
    requires
        forall|i: int|
            0 <= i < name.len() ==> (65 <= #[trigger] name[i] <= 90 || 97 <= name[i] <= 122
                || name[i] == 32),
    ensures
        mail::display_name(name) == name,
        mail::header_text(name) == name,
{
}

// ---------------------------------------------------------------------------
// What a series shows

/// Of walked commits, the newest first, a series shows those that are no
/// merges, the oldest first: a commit that is older than all others comes
/// before what is shown of them.
pub proof fn lemma_oldest_comes_first(revisions: Seq<PatchSource>, oldest: PatchSource)
    ensures
        shown(revisions.push(oldest), None) == if oldest.commit@.parents.len() <= 1 {
            seq![oldest] + shown(revisions, None)
        } else {
            shown(revisions, None)
        },
        shown(Seq::empty(), None) == Seq::<PatchSource>::empty(),
{
    let keep = |r: PatchSource| r.commit@.parents.len() <= 1;
    let all = revisions.push(oldest);
    reveal(Seq::filter);
    assert(all.drop_last() =~= revisions);
    assert(all.last() == oldest);
    if keep(oldest) {
        assert(all.filter(keep) == revisions.filter(keep).push(oldest));
        assert(shown(all, None) =~= seq![oldest] + shown(revisions, None));
    } else {
        assert(all.filter(keep) == revisions.filter(keep));
    }
    assert(shown(Seq::empty(), None) =~= Seq::<PatchSource>::empty());
}

/// A limit keeps the newest commits of a series, all of them where it is not
/// reached.
pub proof fn lemma_limit_keeps_the_newest(revisions: Seq<PatchSource>, limit: usize)
    ensures
        ({
            let all = shown(revisions, None);
            let cut = shown(revisions, Some(limit));
            &&& cut.len() == if limit < all.len() {
                limit as nat
            } else {
                all.len()
            }
            &&& forall|i: int|
                0 <= i < cut.len() ==> #[trigger] cut[i] == all[all.len() - cut.len() + i]
        }),
{
}

/// A series has a mail for each commit that it shows, in their order.
pub proof fn lemma_each_commit_has_a_mail(
    list: Seq<PatchSource>,
    options: FormatPatchOptions,
    n: int,
)
    requires
        0 <= n <= list.len(),
    ensures
        series(list, options, n) matches Ok((mails, size)) ==> {
            &&& mails.len() == n
            &&& size <= options.max_total_bytes || n == 0
            &&& forall|i: int|
                0 <= i < n ==> {
                    &&& (#[trigger] mails[i]).id == list[i].id@
                    &&& names_author(mails[i].data, list[i].id@, list[i].commit@.author)
                    &&& message_of(list[i], (i + 1) as nat, list.len(), options) matches Ok((_, data))
                        && data == mails[i].data
                }
        },
    decreases n,
{
    if n > 0 && series(list, options, n) is Ok {
        lemma_each_commit_has_a_mail(list, options, n - 1);
        lemma_mail_credits_the_author(list[n - 1], n as nat, list.len(), options);
        let before = (series(list, options, n - 1)->Ok_0).0;
        let mails = (series(list, options, n)->Ok_0).0;
        assert forall|i: int| 0 <= i < n implies {
            &&& (#[trigger] mails[i]).id == list[i].id@
            &&& names_author(mails[i].data, list[i].id@, list[i].commit@.author)
            &&& message_of(list[i], (i + 1) as nat, list.len(), options) matches Ok((_, data))
                && data == mails[i].data
        } by {
            if i < n - 1 {
                assert(mails[i] == before[i]);
            }
        }
    }
}

/// Whether a mail is that of one of some commits and names its author.
pub open spec fn is_credited(mail: PatchModel, revisions: Seq<PatchSource>) -> bool {
    exists|j: int|
        0 <= j < revisions.len() && mail.id == (#[trigger] revisions[j]).id@ && names_author(
            mail.data,
            revisions[j].id@,
            revisions[j].commit@.author,
        )
}

/// Whether each mail is that of a commit and names the author of the commit.
pub open spec fn all_credited(mails: Seq<PatchModel>, revisions: Seq<PatchSource>) -> bool {
    forall|k: int| 0 <= k < mails.len() ==> is_credited(#[trigger] mails[k], revisions)
}

/// A series shows walked commits.
proof fn lemma_shown_is_walked(revisions: Seq<PatchSource>, max_count: Option<usize>, k: int)
    requires
        0 <= k < shown(revisions, max_count).len(),
    ensures
        revisions.contains(shown(revisions, max_count)[k]),
{
    let keep = |r: PatchSource| r.commit@.parents.len() <= 1;
    let single = revisions.filter(keep);
    let list = shown(revisions, max_count);
    let x = list[k];
    assert(x == single[list.len() - 1 - k]);
    assert(single.contains(x));
    revisions.lemma_filter_contains_rev(keep, x);
}

proof fn lemma_mail_credited(list: Seq<PatchSource>, options: FormatPatchOptions, k: int)
    requires
        0 <= k < list.len(),
        series(list, options, list.len() as int) is Ok,
    ensures
        ({
            let mails = (series(list, options, list.len() as int)->Ok_0).0;
            &&& mails.len() == list.len()
            &&& mails[k].id == list[k].id@
            &&& names_author(mails[k].data, list[k].id@, list[k].commit@.author)
        }),
{
    lemma_each_commit_has_a_mail(list, options, list.len() as int);
    let mails = (series(list, options, list.len() as int)->Ok_0).0;
    assert(mails[k].id == list[k].id@);
}

proof fn lemma_all_credited(revisions: Seq<PatchSource>, options: FormatPatchOptions)
    requires
        ({
            let list = shown(revisions, options.max_count);
            series(list, options, list.len() as int) is Ok
        }),
    ensures
        ({
            let list = shown(revisions, options.max_count);
            all_credited((series(list, options, list.len() as int)->Ok_0).0, revisions)
        }),
{
    let list = shown(revisions, options.max_count);
    let mails = (series(list, options, list.len() as int)->Ok_0).0;
    assert(mails.len() == list.len()) by {
        lemma_each_commit_has_a_mail(list, options, list.len() as int);
    }
    assert forall|k: int| 0 <= k < mails.len() implies is_credited(
        #[trigger] mails[k],
        revisions,
    ) by {
        lemma_mail_credited(list, options, k);
        lemma_shown_is_walked(revisions, options.max_count, k);
        lemma_credited(mails[k], list[k], revisions);
    }
}

proof fn lemma_credited(mail: PatchModel, source: PatchSource, revisions: Seq<PatchSource>)
    requires
        mail.id == source.id@,
        names_author(mail.data, source.id@, source.commit@.author),
        revisions.contains(source),
    ensures
        is_credited(mail, revisions),
{
    let j = revisions.index_of(source);
    assert(revisions[j] == source);
}

// ---------------------------------------------------------------------------
// Subject and body

/// The first paragraph of a message is its subject and the rest its body:
/// where a line is followed by an empty one, it is the subject as it stands,
/// and what follows is the body.
pub proof fn lemma_first_paragraph_is_the_subject(line: Seq<u8>, rest: Seq<u8>, max: usize)
    requires
        0 < line.len() <= max,
        !line.contains(10),
        !mail::is_space(line[0]) && !mail::is_space(line.last()),
        rest.len() > 0 ==> rest[0] != 10 && (rest.len() > 1 && rest.last() == 10
            ==> rest[rest.len() - 2] != 10),
    ensures
        message_parts(line + seq![10u8, 10u8] + rest, max) == Ok::<(Seq<u8>, Seq<u8>), Error>(
            (line, rest),
        ),
        message_parts(line, max) == Ok::<(Seq<u8>, Seq<u8>), Error>((line, Seq::empty())),
{
    let message = line + seq![10u8, 10u8] + rest;
    let n = line.len() as int;
    assert forall|i: int| 0 <= i < n implies message[i] != 10 by {
        assert(message[i] == line[i]);
        assert(line.contains(line[i]));
    }
    assert forall|i: int| 0 <= i < n implies line[i] != 10 by {
        assert(line.contains(line[i]));
    }
    assert(message[n] == 10 && message[n + 1] == 10);
    bytes::lemma_index_from_is(message, 10, 0, n);
    assert(message.subrange(0, n) =~= line);
    assert(mail::trimmed(line) == line);
    bytes::lemma_index_from_is(message, 10, n + 1, n + 1);
    assert(message.subrange(n + 1, n + 1) =~= Seq::empty());
    assert(subject_from(message, n + 1, line) == (line, n + 2));
    assert(subject_from(message, 0, Seq::empty()) == (line, n + 2));
    assert(message.skip(n + 2) =~= rest);
    bytes::lemma_index_from(line, 10, 0);
    assert(bytes::index_from(line, 10, 0) == n);
    assert(line.subrange(0, n) =~= line);
    assert(subject_from(line, n, line) == (line, n));
    assert(subject_from(line, 0, Seq::empty()) == (line, n));
    assert(line.skip(n) =~= Seq::empty());
}

/// A series leaves merges out and shows nothing that was not walked; without
/// a limit it shows every commit that is no merge.
pub proof fn lemma_merges_are_left_out(
    revisions: Seq<PatchSource>,
    max_count: Option<usize>,
    x: PatchSource,
)
    ensures
        shown(revisions, max_count).contains(x) ==> revisions.contains(x) && x.commit@.parents.len()
            <= 1,
        max_count is None && revisions.contains(x) && x.commit@.parents.len() <= 1 ==> shown(
            revisions,
            max_count,
        ).contains(x),
{
    let is_single = |r: PatchSource| r.commit@.parents.len() <= 1;
    let single = revisions.filter(is_single);
    broadcast use vstd::seq_lib::group_filter_ensures;

    let list = shown(revisions, max_count);
    if list.contains(x) {
        let k = list.index_of(x);
        assert(single.contains(list[k])) by {
            assert(exists|j: int| 0 <= j < single.len() && single[j] == list[k]) by {
                let cut = match max_count {
                    Some(limit) => if limit < single.len() {
                        single.take(limit as int)
                    } else {
                        single
                    },
                    None => single,
                };
                assert(list == cut.reverse());
                let j = cut.len() - 1 - k;
                assert(list[k] == cut[j]);
                assert(single[j] == cut[j]);
            }
        }
        let j = single.index_of(x);
        assert(is_single(single[j]));
        lemma_filtered_was_there(revisions, is_single, x);
    }
    if max_count is None && revisions.contains(x) && x.commit@.parents.len() <= 1 {
        let i = revisions.index_of(x);
        assert(is_single(revisions[i]));
        assert(single.contains(x));
        let j = single.index_of(x);
        let k = single.len() - 1 - j;
        assert(list[k] == single[j]);
    }
}

proof fn lemma_filtered_was_there(
    list: Seq<PatchSource>,
    keep: spec_fn(PatchSource) -> bool,
    x: PatchSource,
)
    requires
        list.filter(keep).contains(x),
    ensures
        list.contains(x),
    decreases list.len(),
{
    reveal(Seq::filter);
    if list.len() > 0 {
        let front = list.drop_last();
        let kept = list.filter(keep);
        let k = kept.index_of(x);
        if k < front.filter(keep).len() {
            assert(front.filter(keep)[k] == x);
            lemma_filtered_was_there(front, keep, x);
            let i = front.index_of(x);
            assert(list[i] == x);
        } else {
            assert(list.last() == x);
        }
    }
}

/// The patches of a commit follow one another in the order of its changes,
/// with nothing between them.
pub proof fn lemma_patch_is_whole(changes: Seq<Vec<u8>>, max: usize, n: int)
    requires
        0 <= n <= changes.len(),
    ensures
        patch_of(changes, max, n) matches Ok(patch) ==> patch == bytes::deep(
            changes,
        ).take(n).fold_left(Seq::<u8>::empty(), |done: Seq<u8>, next: Seq<u8>| done + next)
            && (n > 0 ==> patch.len() <= max),
    decreases n,
{
    let parts = bytes::deep(changes).take(n);
    if n > 0 {
        lemma_patch_is_whole(changes, max, n - 1);
        assert(parts.drop_last() =~= bytes::deep(changes).take(n - 1));
        assert(parts.last() == changes[n - 1]@);
    }
}

/// A label begins with the prefix that is asked for. Where a series is
/// numbered it ends with the number of the patch and of all, behind a blank;
/// where it is not, and no version is named, it is the prefix alone.
pub proof fn lemma_label_counts(options: FormatPatchOptions, number: nat, count: nat)
    ensures
        ({
            let numbered = is_numbered(options.numbering, count);
            let label = bracketed(options, number, count, numbered);
            &&& numbered <==> options.numbering is Always || (options.numbering is Auto && count > 1)
            &&& bytes::has_prefix(label, options.subject_prefix@)
            &&& numbered ==> bytes::has_suffix(
                label,
                seq![32u8] + bytes::decimal(number) + seq![47u8] + bytes::decimal(count),
            )
            &&& !numbered && options.reroll_count is None ==> label == options.subject_prefix@
        }),
{
    let numbered = is_numbered(options.numbering, count);
    let label = bracketed(options, number, count, numbered);
    let prefix = options.subject_prefix@;
    assert(label.take(prefix.len() as int) =~= prefix);
    if numbered {
        let tail = seq![32u8] + bytes::decimal(number) + seq![47u8] + bytes::decimal(count);
        assert(label.skip(label.len() - tail.len()) =~= tail);
    }
}

} // verus!
