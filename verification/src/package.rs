//! Packaging a rendered document as an OOXML (zip) package.

use vstd::prelude::*;
use crate::strs::{self, owned};
use crate::chars::byte_len;
use crate::error::CoreError;
use std::io::Write;
use std::io::Read;

verus! {

/// A zip package being written into memory: a `zip::ZipWriter` over an
/// in-memory buffer, held opaque; its files are named by `zip_files`.
#[verifier::external_body]
pub struct ZipPackage {
    inner: zip::ZipWriter<std::io::Cursor<Vec<u8>>>,
}

#[verifier::external_type_specification]
#[verifier::external_body]
pub struct ExZipError(zip::result::ZipError);

#[verifier::external_type_specification]
#[verifier::external_body]
pub struct ExIoError(std::io::Error);

/// The files written into a zip package so far, in order: each name and the
/// text written to it.
pub uninterp spec fn zip_files(w: ZipPackage) -> Seq<(Seq<char>, Seq<char>)>;

/// The bytes of a finished package holding the given (name, text) files,
/// deflate-compressed, in order.
pub uninterp spec fn zip_package(files: Seq<(Seq<char>, Seq<char>)>) -> Seq<u8>;

/// The most bytes of names and contents a package is written with: below
/// it the archive stays far under the 4 GiB size at which the writer needs
/// its large-file option.
pub open spec fn zip_limit() -> nat {
    2_000_000_000
}

/// The bytes of all the names and texts of a list of files.
pub open spec fn files_bytes(fs: Seq<(Seq<char>, Seq<char>)>) -> nat
    decreases fs.len(),
{
    if fs.len() == 0 {
        0
    } else {
        files_bytes(fs.drop_last()) + byte_len(fs.last().0) + byte_len(fs.last().1)
    }
}

/// No two files share a name.
pub open spec fn names_distinct(fs: Seq<(Seq<char>, Seq<char>)>) -> bool {
    forall|i: int, j: int| 0 <= i < j < fs.len() ==> #[trigger] fs[i].0 != #[trigger] fs[j].0
}

/// Every name fits the zip format's 16-bit name length.
pub open spec fn names_short(fs: Seq<(Seq<char>, Seq<char>)>) -> bool {
    forall|i: int| 0 <= i < fs.len() ==> byte_len(#[trigger] fs[i].0) <= 65535
}

/// The files a package is always written from: distinct, short names, and
/// no more than `zip_limit` bytes in all.
pub open spec fn package_fits(fs: Seq<(Seq<char>, Seq<char>)>) -> bool {
    names_distinct(fs) && names_short(fs) && files_bytes(fs) <= zip_limit()
}

pub proof fn lemma_files_bytes_prefix(fs: Seq<(Seq<char>, Seq<char>)>, k: int)
    requires
        0 <= k <= fs.len(),
    ensures
        files_bytes(fs.take(k)) <= files_bytes(fs),
    decreases fs.len(),
{
    if k < fs.len() {
        assert(fs.drop_last().take(k) == fs.take(k));
        lemma_files_bytes_prefix(fs.drop_last(), k);
    } else {
        assert(fs.take(k) == fs);
    }
}

/// Whether the writer has a file open for writing: one started by a
/// successful `start_file` and not closed since.
pub uninterp spec fn zip_file_open(w: ZipPackage) -> bool;

/// Calls `zip::ZipWriter::new` on an empty in-memory buffer: a package with
/// no files yet.
#[verifier::external_body]
fn zip_new() -> (w: ZipPackage)
    ensures
        zip_files(w) == Seq::<(Seq<char>, Seq<char>)>::empty(),
{
    ZipPackage { inner: zip::ZipWriter::new(std::io::Cursor::new(Vec::new())) }
}

/// Calls `ZipWriter::start_file` with deflate compression and default
/// options. On success the package has a new, empty file of that name last.
/// The call panics on a name over 65535 bytes, so such names are refused. It
/// succeeds on a name not yet in the package while the package stays within
/// `zip_limit` bytes: on an in-memory writer its only other failure is a
/// duplicate name. On success the new file is open for writing; what a
/// failed call leaves behind is not stated.
#[verifier::external_body]
fn zip_start_file(w: &mut ZipPackage, name: &str) -> (r: Result<(), zip::result::ZipError>)
    requires
        byte_len(name@) <= 65535,
    ensures
        r is Ok ==> zip_files(*final(w)) == zip_files(*old(w)).push((name@, Seq::empty())),
        r is Ok ==> zip_file_open(*final(w)),
        (forall|i: int| 0 <= i < zip_files(*old(w)).len() ==> #[trigger] zip_files(*old(w))[i].0 != name@)
            && files_bytes(zip_files(*old(w))) + byte_len(name@) <= zip_limit() ==> r is Ok,
{
    let opts = zip::write::SimpleFileOptions::default().compression_method(zip::CompressionMethod::Deflated);
    w.inner.start_file(name, opts)
}

/// Calls `std::io::Write::write_all` on the writer with the text's UTF-8
/// bytes, into the file open for writing. On success the text is appended to
/// that file, the last started, which stays open. On the in-memory writer
/// with a file open it fails only once a file passes the 4 GiB large-file
/// size, so it succeeds while the package stays within `zip_limit` bytes.
/// What a failed call leaves behind is not stated.
#[verifier::external_body]
fn zip_write(w: &mut ZipPackage, data: &str) -> (r: Result<(), std::io::Error>)
    requires
        zip_files(*old(w)).len() > 0,
        zip_file_open(*old(w)),
    ensures
        r is Ok ==> zip_file_open(*final(w)),
        files_bytes(zip_files(*old(w))) + byte_len(data@) <= zip_limit() ==> r is Ok,
        r is Ok ==> zip_files(*final(w)) == zip_files(*old(w)).drop_last().push(
            (zip_files(*old(w)).last().0, zip_files(*old(w)).last().1 + data@)),
{
    w.inner.write_all(data.as_bytes())
}

/// Calls `ZipWriter::finish` and takes the buffer: on success the bytes of
/// the package of the files written, named `zip_package`. On the in-memory
/// writer it succeeds while the package is within `zip_limit` bytes.
#[verifier::external_body]
fn zip_finish(w: ZipPackage) -> (r: Result<Vec<u8>, zip::result::ZipError>)
    ensures
        files_bytes(zip_files(w)) <= zip_limit() ==> r is Ok,
        r matches Ok(bytes) ==> bytes@ == zip_package(zip_files(w)),
{
    w.inner.finish().map(|c| c.into_inner())
}

/// The text of a zip error (its `Display`).
#[verifier::external_body]
fn zip_error_text(e: &zip::result::ZipError) -> (r: String) {
    format!("{e}")
}

/// The text of an I/O error (its `Display`).
#[verifier::external_body]
fn io_error_text(e: &std::io::Error) -> (r: String) {
    format!("{e}")
}

pub open spec fn files_view(parts: Seq<(String, String)>) -> Seq<(Seq<char>, Seq<char>)> {
    parts.map_values(|p: (String, String)| (p.0@, p.1@))
}

/// An index error whose message begins with `prefix`.
pub open spec fn index_error_saying(e: CoreError, prefix: Seq<char>) -> bool {
    e matches CoreError::Index(m) && m@.len() >= prefix.len() && m@.take(prefix.len() as int) == prefix
}

/// The errors packaging gives: the zip writer failing while a file is
/// started (`docx zip: …`) or while the package is finished
/// (`docx finalize: …`), or a write failing (an I/O error).
pub open spec fn package_error(e: CoreError) -> bool {
    ||| index_error_saying(e, "docx zip: "@)
    ||| index_error_saying(e, "docx finalize: "@)
    ||| e is Io
}

fn zip_failure(prefix: &str, e: &zip::result::ZipError) -> (r: CoreError)
    ensures
        index_error_saying(r, prefix@),
{
    let mut m = owned(prefix);
    let t = zip_error_text(e);
    crate::chars::push_str(&mut m, t.as_str());
    proof {
        assert(m@.take(prefix@.len() as int) =~= prefix@);
    }
    CoreError::Index(m)
}

/// A zip package holding the given (name, text) files in order. It is made
/// whenever the names are distinct and short and the whole is within
/// `zip_limit` bytes. A name over 65535 bytes, or a failure of the zip
/// writer, is reported as an index error (`docx zip: …` while writing,
/// `docx finalize: …` at the end), a failed write as an I/O error.
pub fn package(parts: &Vec<(String, String)>) -> (r: Result<Vec<u8>, CoreError>)
    ensures
        r matches Ok(bytes) ==> bytes@ == zip_package(files_view(parts@)),
        r matches Err(e) ==> package_error(e),
        package_fits(files_view(parts@)) ==> r is Ok,
{
    let ghost fv = files_view(parts@);
    let mut k: usize = 0;
    while k < parts.len()
        invariant
            k <= parts.len(),
            fv == files_view(parts@),
            forall|j: int| 0 <= j < k ==> byte_len(#[trigger] fv[j].0) <= 65535,
        decreases parts.len() - k,
    {
        let name = crate::chars::chars_of(parts[k].0.as_str());
        if !crate::chars::byte_len_le(name.as_slice(), 65535) {
            assert(fv[k as int].0 == name@);
            assert(!names_short(fv));
            let mut m = owned("docx zip: ");
            crate::chars::push_str(&mut m, "file name longer than 65535 bytes");
            proof {
                assert(m@.take("docx zip: "@.len() as int) =~= "docx zip: "@);
            }
            return Err(CoreError::Index(m));
        }
        k += 1;
    }
    let mut w = zip_new();
    let mut i: usize = 0;
    while i < parts.len()
        invariant
            i <= parts.len(),
            fv == files_view(parts@),
            forall|j: int| 0 <= j < parts.len() ==> byte_len(#[trigger] fv[j].0) <= 65535,
            zip_files(w) == fv.take(i as int),
            package_fits(fv) ==> files_bytes(fv.take(i as int)) <= zip_limit(),
        decreases parts.len() - i,
    {
        let (name, data) = (&parts[i].0, &parts[i].1);
        assert(fv[i as int] == (name@, data@));
        assert(byte_len(fv[i as int].0) <= 65535);
        proof {
            if package_fits(fv) {
                lemma_files_bytes_prefix(fv, i + 1);
                assert(fv.take(i + 1).drop_last() == fv.take(i as int));
                assert forall|j: int| 0 <= j < zip_files(w).len() implies #[trigger] zip_files(w)[j].0 != name@ by {
                    assert(zip_files(w)[j] == fv[j]);
                }
            }
        }
        match zip_start_file(&mut w, name.as_str()) {
            Ok(()) => {},
            Err(e) => return Err(zip_failure("docx zip: ", &e)),
        }
        proof {
            assert(zip_files(w).drop_last() =~= fv.take(i as int));
            assert(files_bytes(zip_files(w)) == files_bytes(fv.take(i as int)) + byte_len(name@) + byte_len(Seq::<char>::empty()));
        }
        match zip_write(&mut w, data.as_str()) {
            Ok(()) => {},
            Err(e) => return Err(CoreError::Io(io_error_text(&e))),
        }
        i += 1;
        assert(fv.take(i as int) =~= fv.take(i - 1).push((name@, data@)));
        assert(Seq::<char>::empty() + data@ =~= data@);
        proof {
            if package_fits(fv) {
                lemma_files_bytes_prefix(fv, i as int);
                assert(fv.take(i as int).drop_last() == fv.take(i - 1));
            }
        }
    }
    assert(fv.take(parts.len() as int) =~= fv);
    match zip_finish(w) {
        Ok(bytes) => Ok(bytes),
        Err(e) => Err(zip_failure("docx finalize: ", &e)),
    }
}

/// The text of the file `name` in the zip package whose bytes are given:
/// `None` when the bytes are not a package, the file is absent, or its
/// content is not UTF-8.
pub uninterp spec fn zip_file_text(bytes: Seq<u8>, name: Seq<char>) -> Option<Seq<char>>;

/// Whether the bytes open as a zip package (`zip::ZipArchive::new` accepts
/// them).
pub uninterp spec fn zip_opens(bytes: Seq<u8>) -> bool;

/// Calls `zip::ZipArchive::new` over the bytes; whether it succeeds is named
/// `zip_opens`.
#[verifier::external_body]
pub(crate) fn zip_check(bytes: &[u8]) -> (r: Result<(), zip::result::ZipError>)
    ensures
        (r is Ok) == zip_opens(bytes@),
{
    zip::ZipArchive::new(std::io::Cursor::new(bytes)).map(|_| ())
}

/// Opens the bytes with `zip::ZipArchive::new`, finds the file with
/// `by_name` and reads it with `read_to_string`. The outer error is the zip
/// crate's (the bytes are no package, or the file is absent), the inner one
/// the read's (the content is not UTF-8). A full success holds exactly the
/// text named `zip_file_text`, and it comes whenever that text exists.
#[verifier::external_body]
fn zip_part(bytes: &[u8], name: &str) -> (r: Result<Result<String, std::io::Error>, zip::result::ZipError>)
    ensures
        !zip_opens(bytes@) ==> r is Err,
        r matches Ok(Ok(s)) ==> zip_file_text(bytes@, name@) == Some(s@),
        zip_file_text(bytes@, name@) is Some ==> r matches Ok(Ok(_)),
{
    let mut archive = zip::ZipArchive::new(std::io::Cursor::new(bytes))?;
    let mut file = archive.by_name(name)?;
    let mut s = String::new();
    Ok(file.read_to_string(&mut s).map(|_| s))
}

/// The text of the file `name` in the zip package whose bytes are given;
/// `None` on any failure (see `zip_file_text`).
pub(crate) fn zip_read_text(bytes: &[u8], name: &str) -> (r: Option<String>)
    ensures
        strs::opt_view(r) == zip_file_text(bytes@, name@),
{
    match zip_part(bytes, name) {
        Ok(Ok(s)) => Some(s),
        _ => None,
    }
}

/// A parse error of the file `file` whose message begins with `prefix`.
pub open spec fn parse_error_saying(e: CoreError, file: Seq<char>, prefix: Seq<char>) -> bool {
    e matches CoreError::Parse { file: f, message } && f@ == file
        && message@.len() >= prefix.len() && message@.take(prefix.len() as int) == prefix
}

/// The text of the file `name` in the zip package whose bytes are given.
/// Bytes that are no package are a parse error of `file_name` saying it is
/// "not a valid docx (zip) file", a missing file one saying it is missing,
/// both followed by the zip crate's own words; content that is not UTF-8 is
/// an I/O error.
pub fn docx_part(bytes: &[u8], name: &str, file_name: &str) -> (r: Result<String, CoreError>)
    ensures
        zip_file_text(bytes@, name@) matches Some(t) ==> r matches Ok(s) && s@ == t,
        zip_file_text(bytes@, name@) is None ==> r is Err,
        !zip_opens(bytes@) ==> (r matches Err(e) && parse_error_saying(e, file_name@, "not a valid docx (zip) file: "@)),
        zip_opens(bytes@) && zip_file_text(bytes@, name@) is None ==> (r matches Err(e)
            && (e is Io || parse_error_saying(e, file_name@, "missing "@ + name@ + ": "@))),
{
    match zip_part(bytes, name) {
        Ok(Ok(s)) => Ok(s),
        Ok(Err(e)) => Err(CoreError::Io(io_error_text(&e))),
        Err(e) => {
            let (mut m, t) = match zip_check(bytes) {
                Err(open_err) => (owned("not a valid docx (zip) file: "), zip_error_text(&open_err)),
                Ok(()) => {
                    let mut m = owned("missing ");
                    crate::chars::push_str(&mut m, name);
                    crate::chars::push_str(&mut m, ": ");
                    (m, zip_error_text(&e))
                },
            };
            let ghost p = m@;
            crate::chars::push_str(&mut m, t.as_str());
            proof {
                assert(m@.take(p.len() as int) =~= p);
            }
            Err(CoreError::Parse { file: owned(file_name), message: m })
        },
    }
}

/// Index error text for a zip failure: `prefix` and the error's own text.
pub(crate) fn zip_error(prefix: &str, e: &zip::result::ZipError) -> (r: CoreError)
    ensures
        index_error_saying(r, prefix@),
{
    zip_failure(prefix, e)
}

} // verus!
