//! Project images: all files of a project in one compressed file.
//!
//! An image file begins with a header line that names the version. What follows is a JSON document,
//! compressed with gzip since version 2. The document lists the files with their paths and their
//! contents in base64.

use base64::engine::general_purpose::STANDARD;
use base64::Engine;
use flate2::read::GzDecoder;
use flate2::write::GzEncoder;
use flate2::Compression;
use std::io::{Read, Write};
use vstd::prelude::*;
use vstd::string::*;

use crate::error::{self, Error, failure};
use crate::path::{self, extend_path, normalize_rel_path};
use crate::project::{FileView, LoadedProject, ProjectFile};
use crate::text::{self, Text, concat2, concat3, copy_bytes, text_eq};

verus! {

/// A file in a project image.
#[derive(Clone, Debug)]
pub struct ProjectImageFile {
    pub path: String,
    pub content_base64: String,
}

/// The content of a [`ProjectImageFile`].
#[verifier::ext_equal]
pub struct ImageFileView {
    pub path: Text,
    pub content_base64: Text,
}

impl View for ProjectImageFile {
    type V = ImageFileView;

    open spec fn view(&self) -> ImageFileView {
        ImageFileView { path: self.path@, content_base64: self.content_base64@ }
    }
}

/// The document in a project image.
#[derive(Clone, Debug)]
pub struct ProjectImage {
    pub format: String,
    pub version: u32,
    pub files: Vec<ProjectImageFile>,
}

/// The content of a [`ProjectImage`].
#[verifier::ext_equal]
pub struct ImageView {
    pub format: Text,
    pub version: u32,
    pub files: Seq<ImageFileView>,
}

impl View for ProjectImage {
    type V = ImageView;

    open spec fn view(&self) -> ImageView {
        ImageView { format: self.format@, version: self.version, files: text::views(self.files@) }
    }
}

// ---------------------------------------------------------------------------------------------
// Base64 and gzip
// ---------------------------------------------------------------------------------------------

/// The base64 text of the given bytes.
pub uninterp spec fn base64_text(bytes: Seq<u8>) -> Seq<char>;

/// What a base64 text stands for, or what is wrong with it.
pub uninterp spec fn base64_bytes(s: Seq<char>) -> Result<Seq<u8>, Seq<char>>;

/// Whether that many bytes have a base64 text that fits in memory: four characters for every three
/// bytes begun.
pub open spec fn encodable(length: nat) -> bool {
    (length + 2) / 3 * 4 <= isize::MAX
}

/// Whether a base64 text stands for the given bytes.
pub open spec fn decodes_to(s: Text, bytes: Seq<u8>) -> bool {
    base64_bytes(s) == Ok::<Seq<u8>, Seq<char>>(bytes)
}

/// Calls `base64::Engine::encode` on the engine `STANDARD`. The result depends on the bytes alone,
/// and `base64::Engine::decode` gives the bytes back.
#[verifier::external_body]
fn encode_base64(bytes: &[u8]) -> (r: String)
    requires
        encodable(bytes@.len()),
    ensures
        r@ == base64_text(bytes@),
        decodes_to(r@, bytes@),
{
    STANDARD.encode(bytes)
}

/// Calls `base64::Engine::decode` on the engine `STANDARD`. The result depends on the text alone;
/// an error is given as the text that it displays.
#[verifier::external_body]
fn decode_base64(s: &str) -> (r: Result<Vec<u8>, String>)
    ensures
        plain_result(r) == base64_bytes(s@),
{
    match STANDARD.decode(s) {
        Ok(bytes) => Ok(bytes),
        Err(error) => Err(error.to_string()),
    }
}

/// A result with an error text, by its views.
pub open spec fn plain_result<T: View>(r: Result<T, String>) -> Result<T::V, Text> {
    match r {
        Ok(value) => Ok(value@),
        Err(message) => Err(message@),
    }
}

/// What gzip data decompresses to, or what is wrong with it.
pub uninterp spec fn gunzip_result(bytes: Seq<u8>) -> Result<Seq<u8>, Seq<char>>;

/// Reads a `flate2::read::GzDecoder` to its end. The result depends on the bytes alone; an error is
/// given as the text that it displays.
#[verifier::external_body]
fn gunzip(bytes: &[u8]) -> (r: Result<Vec<u8>, String>)
    ensures
        plain_result(r) == gunzip_result(bytes@),
{
    let mut decompressed = Vec::new();
    match GzDecoder::new(bytes).read_to_end(&mut decompressed) {
        Ok(_) => Ok(decompressed),
        Err(error) => Err(error.to_string()),
    }
}

/// The gzip data that bytes are compressed to. An outer error comes from writing the bytes, an inner
/// one from putting out the last of the data.
pub uninterp spec fn gzip_result(data: Seq<u8>) -> Result<Result<Seq<u8>, Seq<char>>, Seq<char>>;

/// What came of compressing, by its views.
pub open spec fn gzip_view(r: Result<Result<Vec<u8>, String>, String>) -> Result<
    Result<Seq<u8>, Text>,
    Text,
> {
    match r {
        Ok(finished) => Ok(plain_result(finished)),
        Err(message) => Err(message@),
    }
}

/// Whether compressed data, where there is any, decompresses to the given bytes.
pub open spec fn gunzips_to(r: Result<Result<Vec<u8>, String>, String>, data: Seq<u8>) -> bool {
    r matches Ok(finished) ==> (finished matches Ok(compressed) ==> (gunzip_result(
        compressed@,
    ) matches Ok(back) && back == data))
}

/// Writes the data to a `flate2::write::GzEncoder` with the default compression and finishes it. The
/// result depends on the data alone, errors are given as the texts that they display, and what comes
/// out decompresses to the data.
#[verifier::external_body]
fn gzip(data: &[u8]) -> (r: Result<Result<Vec<u8>, String>, String>)
    ensures
        gzip_view(r) == gzip_result(data@),
        gunzips_to(r, data@),
{
    let mut encoder = GzEncoder::new(Vec::new(), Compression::default());
    match encoder.write_all(data) {
        Ok(()) => Ok(encoder.finish().map_err(|error| error.to_string())),
        Err(error) => Err(error.to_string()),
    }
}

// ---------------------------------------------------------------------------------------------
// The image file
// ---------------------------------------------------------------------------------------------

/// The header of a compressed image: `RLEIMG2` and a line feed.
pub open spec fn magic() -> Seq<u8> {
    seq![82u8, 76u8, 69u8, 73u8, 77u8, 71u8, 50u8, 10u8]
}

/// The header of an image without compression: `RLEIMG1` and a line feed.
pub open spec fn magic_v1() -> Seq<u8> {
    seq![82u8, 76u8, 69u8, 73u8, 77u8, 71u8, 49u8, 10u8]
}

/// Whether `bytes` begins with `prefix`.
pub open spec fn bytes_begin(bytes: Seq<u8>, prefix: Seq<u8>) -> bool {
    prefix.len() <= bytes.len() && bytes.take(prefix.len() as int) == prefix
}

/// The document in an image file.
pub open spec fn payload_of(bytes: Seq<u8>) -> Result<Seq<u8>, Text> {
    if bytes_begin(bytes, magic()) {
        match gunzip_result(bytes.skip(8)) {
            Ok(document) => Ok(document),
            Err(message) => Err("Decompression error: "@ + message),
        }
    } else if bytes_begin(bytes, magic_v1()) {
        Ok(bytes.skip(8))
    } else {
        Err("Invalid .rleimg header"@)
    }
}

fn is_magic(bytes: &[u8], version: u8) -> (r: bool)
    ensures
        r == bytes_begin(bytes@, magic().update(6, version)),
{
    let ghost m = magic().update(6, version);
    if bytes.len() < 8 {
        return false;
    }
    let ghost head = bytes@.take(8);
    let r = bytes[0] == 82 && bytes[1] == 76 && bytes[2] == 69 && bytes[3] == 73 && bytes[4] == 77
        && bytes[5] == 71 && bytes[6] == version && bytes[7] == 10;
    proof {
        assert(forall|i: int| 0 <= i < 8 ==> head[i] == bytes@[i]);
        if r {
            assert(head =~= m);
        } else if head == m {
            assert(head[0] == m[0] && head[1] == m[1] && head[2] == m[2] && head[3] == m[3]
                && head[4] == m[4] && head[5] == m[5] && head[6] == m[6] && head[7] == m[7]);
        }
    }
    r
}

fn bytes_after_header(bytes: &[u8]) -> (r: Vec<u8>)
    requires
        bytes@.len() >= 8,
    ensures
        r@ == bytes@.skip(8),
{
    let mut out: Vec<u8> = Vec::new();
    let mut i: usize = 8;
    while i < bytes.len()
        invariant
            8 <= i <= bytes@.len(),
            out@ == bytes@.subrange(8, i as int),
        decreases bytes@.len() - i,
    {
        out.push(bytes[i]);
        assert(out@ =~= bytes@.subrange(8, i + 1));
        i += 1;
    }
    assert(out@ =~= bytes@.skip(8));
    out
}

/// The document in an image file.
pub fn image_payload(bytes: &[u8]) -> (r: Result<Vec<u8>, Error>)
    ensures
        error::res_view(r) == payload_of(bytes@),
{
    assert(magic().update(6, 50) =~= magic());
    assert(magic().update(6, 49) =~= magic_v1());
    if is_magic(bytes, 50) {
        let rest = bytes_after_header(bytes);
        match gunzip(rest.as_slice()) {
            Ok(document) => Ok(document),
            Err(message) => Err(
                failure(concat2("Decompression error: ", message.as_str()).as_str()),
            ),
        }
    } else if is_magic(bytes, 49) {
        Ok(bytes_after_header(bytes))
    } else {
        Err(failure("Invalid .rleimg header"))
    }
}

/// The image file that holds a compressed document.
pub open spec fn framed(compressed: Result<Result<Seq<u8>, Text>, Text>) -> Result<Seq<u8>, Text> {
    match compressed {
        Ok(Ok(bytes)) => Ok(magic() + bytes),
        Ok(Err(message)) => Err("Compression finish error: "@ + message),
        Err(message) => Err("Compression error: "@ + message),
    }
}

/// What becomes of a compressed document: the image file that holds it, or an error.
pub fn frame_image(compressed: Result<Result<Vec<u8>, String>, String>) -> (r: Result<
    Vec<u8>,
    Error,
>)
    ensures
        error::res_view(r) == framed(gzip_view(compressed)),
{
    match compressed {
        Ok(Ok(bytes)) => {
            let mut out: Vec<u8> = vec![82u8, 76u8, 69u8, 73u8, 77u8, 71u8, 50u8, 10u8];
            assert(out@ =~= magic());
            let mut bytes = bytes;
            out.append(&mut bytes);
            Ok(out)
        },
        Ok(Err(message)) => Err(
            failure(concat2("Compression finish error: ", message.as_str()).as_str()),
        ),
        Err(message) => Err(failure(concat2("Compression error: ", message.as_str()).as_str())),
    }
}

/// The image file that holds a document, given what came of writing the document down. Where there
/// is a file, reading it gives the document back.
pub fn encode_project_image(document: Result<Vec<u8>, String>) -> (r: Result<Vec<u8>, Error>)
    ensures
        error::res_view(r) == (match document {
            Ok(bytes) => framed(gzip_result(bytes@)),
            Err(message) => Err::<Seq<u8>, Text>("Could not encode image: "@ + message@),
        }),
        r matches Ok(file) ==> (document matches Ok(bytes) && bytes_begin(file@, magic())
            && payload_of(file@) == Ok::<Seq<u8>, Text>(bytes@)),
{
    match document {
        Ok(bytes) => {
            let compressed = gzip(bytes.as_slice());
            let r = frame_image(compressed);
            proof {
                if r is Ok {
                    let file = r->Ok_0@;
                    let packed = compressed->Ok_0->Ok_0@;
                    assert(file == magic() + packed);
                    assert(file.take(8) =~= magic());
                    assert(file.skip(8) =~= packed);
                }
            }
            r
        },
        Err(message) => Err(
            failure(concat2("Could not encode image: ", message.as_str()).as_str()),
        ),
    }
}

// ---------------------------------------------------------------------------------------------
// The document
// ---------------------------------------------------------------------------------------------

/// The entry of a file.
pub open spec fn image_file(file: FileView) -> ImageFileView {
    ImageFileView { path: path::normalized(file.path), content_base64: base64_text(file.bytes) }
}

/// The document that lists the given files.
pub open spec fn image_of(files: Seq<FileView>) -> ImageView {
    ImageView {
        format: "RobloxLuaEnvironment"@,
        version: 2,
        files: files.map_values(|file: FileView| image_file(file)),
    }
}

/// The files that the given entries list, or the first error among them.
pub open spec fn files_of(entries: Seq<ImageFileView>) -> Result<Seq<FileView>, Text>
    decreases entries.len(),
{
    if entries.len() == 0 {
        Ok(Seq::empty())
    } else {
        match files_of(entries.drop_last()) {
            Err(message) => Err(message),
            Ok(files) => match base64_bytes(entries.last().content_base64) {
                Ok(bytes) => Ok(files.push(FileView { path: entries.last().path, bytes })),
                Err(message) => Err(
                    "Could not decode image entry '"@ + entries.last().path + "': "@ + message,
                ),
            },
        }
    }
}

/// The files that a document lists.
pub open spec fn project_of(image: ImageView) -> Result<Seq<FileView>, Text> {
    if image.format != "RobloxLuaEnvironment"@ {
        Err("Unsupported image format '"@ + image.format + "'"@)
    } else {
        files_of(image.files)
    }
}

/// A project read from a document, by its view.
pub open spec fn project_outcome(r: Result<LoadedProject, Error>) -> Result<Seq<FileView>, Text> {
    match r {
        Ok(project) => Ok(project@),
        Err(error) => Err(error@),
    }
}

/// The document that lists the files of a project. Reading it gives the files back, under their
/// normalized paths.
pub fn project_image(project: &LoadedProject) -> (r: ProjectImage)
    requires
        forall|i: int|
            0 <= i < project.files@.len() ==> encodable(#[trigger] project.files@[i].bytes@.len()),
    ensures
        r@ == image_of(project@),
        project_of(r@) == Ok::<Seq<FileView>, Text>(
            project@.map_values(
                |file: FileView| FileView { path: path::normalized(file.path), bytes: file.bytes },
            ),
        ),
{
    let mut files: Vec<ProjectImageFile> = Vec::new();
    let ghost tidy = |file: FileView| FileView { path: path::normalized(file.path), bytes: file.bytes };
    let ghost all = project@;
    let mut i: usize = 0;
    assert(all.take(0).map_values(tidy) =~= Seq::empty());
    assert(text::views(files@) =~= Seq::empty());
    while i < project.files.len()
        invariant
            i <= project.files@.len(),
            all == project@,
            tidy == (|file: FileView| FileView { path: path::normalized(file.path), bytes: file.bytes }),
            forall|k: int|
                0 <= k < project.files@.len() ==> encodable(
                    #[trigger] project.files@[k].bytes@.len(),
                ),
            files@.len() == i,
            forall|k: int| 0 <= k < i ==> (#[trigger] files@[k])@ == image_file(all[k]),
            files_of(text::views(files@)) == Ok::<Seq<FileView>, Text>(
                all.take(i as int).map_values(tidy),
            ),
        decreases project.files@.len() - i,
    {
        let file = &project.files[i];
        assert(all[i as int] == file@);
        let entry = ProjectImageFile {
            path: normalize_rel_path(file.relative_path.as_str()),
            content_base64: encode_base64(file.bytes.as_slice()),
        };
        let ghost before = files@;
        files.push(entry);
        proof {
            text::lemma_views_push(before, entry);
            assert(text::views(files@).drop_last() =~= text::views(before));
            assert(all.take(i + 1).map_values(tidy) =~= all.take(i as int).map_values(tidy).push(
                tidy(file@),
            ));
        }
        i += 1;
    }
    assert(all.take(i as int) =~= all);
    let r = ProjectImage { format: "RobloxLuaEnvironment".to_owned(), version: 2, files };
    assert(text::views(files@) =~= all.map_values(|file: FileView| image_file(file)));
    r
}

/// The project that a document lists, given what came of parsing the document.
pub fn decode_project_image(parsed: Result<ProjectImage, String>) -> (r: Result<
    LoadedProject,
    Error,
>)
    ensures
        project_outcome(r) == (match parsed {
            Ok(image) => project_of(image@),
            Err(message) => Err("Could not decode image: "@ + message@),
        }),
{
    let image = match parsed {
        Ok(image) => image,
        Err(message) => {
            return Err(failure(concat2("Could not decode image: ", message.as_str()).as_str()));
        },
    };
    if !text_eq(image.format.as_str(), "RobloxLuaEnvironment") {
        return Err(
            failure(concat3("Unsupported image format '", image.format.as_str(), "'").as_str()),
        );
    }
    let ghost all = image@.files;
    let mut files: Vec<ProjectFile> = Vec::new();
    let mut i: usize = 0;
    assert(text::views(files@) =~= Seq::empty());
    assert(all.take(0) =~= Seq::empty());
    while i < image.files.len()
        invariant
            i <= image.files@.len(),
            parsed matches Ok(parsed_image) && parsed_image@ == image@,
            image@.format == "RobloxLuaEnvironment"@,
            all == image@.files,
            files_of(all.take(i as int)) == Ok::<Seq<FileView>, Text>(text::views(files@)),
        decreases image.files@.len() - i,
    {
        let entry = &image.files[i];
        assert(all.take(i + 1).drop_last() =~= all.take(i as int));
        assert(all.take(i + 1).last() == entry@);
        match decode_base64(entry.content_base64.as_str()) {
            Ok(bytes) => {
                let file = ProjectFile { relative_path: entry.path.as_str().to_owned(), bytes };
                proof {
                    text::lemma_views_push(files@, file);
                }
                files.push(file);
            },
            Err(message) => {
                let mut out = concat3("Could not decode image entry '", entry.path.as_str(), "': ");
                out.append(message.as_str());
                proof {
                    lemma_files_error(all, i + 1);
                }
                return Err(failure(out.as_str()));
            },
        }
        i += 1;
    }
    assert(all.take(i as int) =~= all);
    Ok(LoadedProject { files })
}

/// Where the files of a project go when it is unpacked into a directory: each to its path below
/// the directory.
pub fn unpack_plan(project: &LoadedProject, output_dir: &str, exists: bool, is_dir: bool) -> (r:
    Result<LoadedProject, Error>)
    ensures
        project_outcome(r) == (if exists && !is_dir {
            Err(output_dir@ + " exists and is not a directory"@)
        } else {
            Ok::<Seq<FileView>, Text>(
                project@.map_values(
                    |file: FileView|
                        FileView { path: path::extended(output_dir@, file.path), bytes: file.bytes },
                ),
            )
        }),
{
    if exists && !is_dir {
        return Err(failure(concat2(output_dir, " exists and is not a directory").as_str()));
    }
    let mut files: Vec<ProjectFile> = Vec::new();
    let mut i: usize = 0;
    while i < project.files.len()
        invariant
            i <= project.files@.len(),
            files@.len() == i,
            forall|k: int|
                0 <= k < i ==> (#[trigger] files@[k])@ == (FileView {
                    path: path::extended(output_dir@, project.files@[k].relative_path@),
                    bytes: project.files@[k].bytes@,
                }),
        decreases project.files@.len() - i,
    {
        let file = &project.files[i];
        files.push(
            ProjectFile {
                relative_path: extend_path(output_dir, file.relative_path.as_str()),
                bytes: copy_bytes(file.bytes.as_slice()),
            },
        );
        i += 1;
    }
    let r = LoadedProject { files };
    assert(r@ =~= project@.map_values(
        |file: FileView| FileView { path: path::extended(output_dir@, file.path), bytes: file.bytes },
    ));
    Ok(r)
}

/// An error among the first entries is the error of all.
proof fn lemma_files_error(entries: Seq<ImageFileView>, k: int)
    requires
        0 <= k <= entries.len(),
        files_of(entries.take(k)) is Err,
    ensures
        files_of(entries) == files_of(entries.take(k)),
    decreases entries.len() - k,
{
    if k == entries.len() {
        assert(entries.take(k) =~= entries);
    } else {
        assert(entries.take(k + 1).drop_last() =~= entries.take(k));
        lemma_files_error(entries, k + 1);
    }
}

/// Images without compression are still read: their document is what follows the header.
pub proof fn law_first_version_reads(document: Seq<u8>)
    ensures
        payload_of(magic_v1() + document) == Ok::<Seq<u8>, Text>(document),
{
    let bytes = magic_v1() + document;
    assert(bytes.take(8) =~= magic_v1());
    assert(bytes.skip(8) =~= document);
    assert(magic_v1()[6] != magic()[6]);
}

/// A document lists every file of a project in its place, under a path with the same components and
/// with the base64 text of its bytes.
pub proof fn law_images_list_every_file(files: Seq<FileView>)
    ensures
        image_of(files).files.len() == files.len(),
        image_of(files).format == "RobloxLuaEnvironment"@,
        image_of(files).version == 2,
        forall|k: int|
            0 <= k < files.len() ==> (#[trigger] image_of(files).files[k]).content_base64
                == base64_text(files[k].bytes) && path::components(image_of(files).files[k].path)
                == path::components(files[k].path),
{
    assert forall|k: int| 0 <= k < files.len() implies (#[trigger] image_of(
        files,
    ).files[k]).content_base64 == base64_text(files[k].bytes) && path::components(
        image_of(files).files[k].path,
    ) == path::components(files[k].path) by {
        path::law_normalized_components(files[k].path);
    }
}

/// A document of this format is read where the content of every entry can be decoded; each entry then
/// gives one file with its path and its content, in the order of the entries. A document of another
/// format is refused.
pub proof fn law_images_are_read(image: ImageView)
    ensures
        match project_of(image) {
            Ok(files) => {
                &&& image.format == "RobloxLuaEnvironment"@
                &&& files.len() == image.files.len()
                &&& forall|k: int|
                    0 <= k < files.len() ==> (#[trigger] files[k]).path == image.files[k].path
                        && decodes_to(image.files[k].content_base64, files[k].bytes)
            },
            Err(_) => image.format != "RobloxLuaEnvironment"@ || exists|k: int|
                0 <= k < image.files.len() && base64_bytes(
                    (#[trigger] image.files[k]).content_base64,
                ) is Err,
        },
{
    lemma_files_read(image.files);
}

proof fn lemma_files_read(entries: Seq<ImageFileView>)
    ensures
        match files_of(entries) {
            Ok(files) => {
                &&& files.len() == entries.len()
                &&& forall|k: int|
                    0 <= k < files.len() ==> (#[trigger] files[k]).path == entries[k].path
                        && decodes_to(entries[k].content_base64, files[k].bytes)
            },
            Err(_) => exists|k: int|
                0 <= k < entries.len() && base64_bytes((#[trigger] entries[k]).content_base64) is Err,
        },
    decreases entries.len(),
{
    if entries.len() > 0 {
        let init = entries.drop_last();
        lemma_files_read(init);
        assert(entries[entries.len() - 1] == entries.last());
        match files_of(init) {
            Ok(files) => {
                if let Ok(all) = files_of(entries) {
                    assert forall|k: int| 0 <= k < all.len() implies (#[trigger] all[k]).path
                        == entries[k].path && decodes_to(entries[k].content_base64, all[k].bytes) by {
                        if k < files.len() {
                            assert(all[k] == files[k]);
                            assert(init[k] == entries[k]);
                        }
                    }
                }
            },
            Err(_) => {
                let k = choose|k: int|
                    0 <= k < init.len() && base64_bytes((#[trigger] init[k]).content_base64) is Err;
                assert(entries[k] == init[k]);
            },
        }
    }
}

/// An image file is `RLEIMG2`, a line feed and the compressed document, and is read by decompressing
/// what follows this header; a file that begins with neither header is refused.
pub proof fn law_image_headers(compressed: Seq<u8>, bytes: Seq<u8>)
    ensures
        ({
            let header = "RLEIMG2\n"@.map_values(|c: char| c as u8);
            let first = "RLEIMG1\n"@.map_values(|c: char| c as u8);
            &&& framed(Ok(Ok(compressed))) == Ok::<Seq<u8>, Text>(header + compressed)
            &&& gunzip_result(compressed) matches Ok(document) ==> payload_of(header + compressed)
                == Ok::<Seq<u8>, Text>(document)
            &&& gunzip_result(compressed) is Err ==> payload_of(header + compressed) is Err
            &&& payload_of(bytes) is Ok ==> header.is_prefix_of(bytes) || first.is_prefix_of(bytes)
        }),
{
    reveal_strlit("RLEIMG2\n");
    reveal_strlit("RLEIMG1\n");
    assert("RLEIMG2\n"@.map_values(|c: char| c as u8) =~= magic());
    assert("RLEIMG1\n"@.map_values(|c: char| c as u8) =~= magic_v1());
    let file = magic() + compressed;
    assert(file.take(8) =~= magic());
    assert(file.skip(8) =~= compressed);
}

} // verus!
