//! Image files of a folder: which files are images, which notes use them,
//! and the data URI of an image.

use crate::error::AppError;
use crate::order::{is_ordering, key_order, ordering, sort_by_keys};
use crate::text::{contains_bytes, lowercase_of, occurs_in, text_eq, texts_bytes, to_lowercase};
use crate::utils::{
    extension, extension_of, file_name, files_view, is_markdown_file, is_markdown_path, name_of,
    MarkdownFile, MarkdownFileView,
};
use vstd::prelude::*;
use vstd::slice::*;
use vstd::string::*;
use vstd::utf8::*;

verus! {

/// What is known of one image file.
#[derive(Debug, Clone, PartialEq, Eq)]
pub struct ImageInfo {
    /// The path of the image.
    pub path: String,
    /// Its file name.
    pub name: String,
    /// Its size in bytes; 0 where the size could not be read.
    pub size: u64,
    /// Its extension in lowercase.
    pub extension: String,
    /// The paths of the markdown files whose text holds the file name.
    pub used_in: Vec<String>,
}

/// An image as a mathematical value.
pub struct ImageInfoView {
    pub path: Seq<char>,
    pub name: Seq<char>,
    pub size: u64,
    pub extension: Seq<char>,
    pub used_in: Seq<Seq<char>>,
}

impl View for ImageInfo {
    type V = ImageInfoView;

    open spec fn view(&self) -> ImageInfoView {
        ImageInfoView {
            path: self.path@,
            name: self.name@,
            size: self.size,
            extension: self.extension@,
            used_in: self.used_in@.map_values(|p: String| p@),
        }
    }
}

/// The images of a list as mathematical values.
pub open spec fn images_view(images: Seq<ImageInfo>) -> Seq<ImageInfoView> {
    images.map_values(|i: ImageInfo| i@)
}

/// An image file as the walk of a folder found it.
#[derive(Debug, Clone, PartialEq, Eq)]
pub struct ImageFile {
    /// The path of the file.
    pub path: String,
    /// Its size in bytes; `None` where it could not be read.
    pub size: Option<u64>,
}

/// A found image file as a mathematical value.
pub struct ImageFileView {
    pub path: Seq<char>,
    pub size: Option<u64>,
}

impl View for ImageFile {
    type V = ImageFileView;

    open spec fn view(&self) -> ImageFileView {
        ImageFileView { path: self.path@, size: self.size }
    }
}

/// The found image files of a list as mathematical values.
pub open spec fn image_files_view(files: Seq<ImageFile>) -> Seq<ImageFileView> {
    files.map_values(|f: ImageFile| f@)
}

/// What a file of a scanned folder is to the image scan.
#[derive(Debug, Clone, Copy, PartialEq, Eq, Structural)]
pub enum FileClass {
    /// An image: its size is wanted.
    Image,
    /// A markdown file: its text is wanted.
    Markdown,
    /// Neither.
    Other,
}

/// The extension of the file that a path names, in lowercase; empty where
/// the file has none.
pub open spec fn lower_extension_of(path: Seq<char>) -> Seq<char> {
    match extension_of(encode_utf8(path)) {
        Some(ext) => lowercase_of(decode_utf8(ext)),
        None => Seq::empty(),
    }
}

/// The extension of the file that a path names, in lowercase.
pub fn lower_extension(path: &str) -> (ext: String)
    ensures
        ext@ == lower_extension_of(path@),
{
    match extension(path) {
        Some(text) => {
            proof {
                encode_utf8_decode_utf8(text@);
            }
            to_lowercase(text.as_str())
        },
        None => String::new(),
    }
}

/// Whether a lowercase extension is that of an image: one of `png`, `jpg`,
/// `jpeg`, `gif`, `svg`, `webp`.
pub open spec fn is_image_extension(ext: Seq<char>) -> bool {
    ext == "png"@ || ext == "jpg"@ || ext == "jpeg"@ || ext == "gif"@ || ext == "svg"@ || ext
        == "webp"@
}

/// Tests a lowercase extension for being that of an image.
pub fn has_image_extension(ext: &str) -> (r: bool)
    ensures
        r == is_image_extension(ext@),
{
    text_eq(ext, "png") || text_eq(ext, "jpg") || text_eq(ext, "jpeg") || text_eq(ext, "gif")
        || text_eq(ext, "svg") || text_eq(ext, "webp")
}

/// What a file is to the image scan, by its extension: an image before a
/// markdown file.
pub open spec fn class_of(path: Seq<char>) -> FileClass {
    if extension_of(encode_utf8(path)) is Some && is_image_extension(lower_extension_of(path)) {
        FileClass::Image
    } else if is_markdown_path(encode_utf8(path)) {
        FileClass::Markdown
    } else {
        FileClass::Other
    }
}

/// Tells what a file of a scanned folder is to the image scan.
pub fn classify(path: &str) -> (class: FileClass)
    ensures
        class == class_of(path@),
{
    match extension(path) {
        Some(text) => {
            proof {
                encode_utf8_decode_utf8(text@);
            }
            let lower = to_lowercase(text.as_str());
            if has_image_extension(lower.as_str()) {
                return FileClass::Image;
            }
        },
        None => {},
    }
    if is_markdown_file(path) {
        FileClass::Markdown
    } else {
        FileClass::Other
    }
}

/// The MIME type of an image with the given lowercase extension, if it is
/// one of the supported ones.
pub open spec fn mime_of(ext: Seq<char>) -> Option<Seq<char>> {
    if ext == "png"@ {
        Some("image/png"@)
    } else if ext == "jpg"@ || ext == "jpeg"@ {
        Some("image/jpeg"@)
    } else if ext == "gif"@ {
        Some("image/gif"@)
    } else if ext == "svg"@ {
        Some("image/svg+xml"@)
    } else if ext == "webp"@ {
        Some("image/webp"@)
    } else {
        None
    }
}

/// Finds the MIME type of an image by its lowercase extension.
pub fn mime_type(ext: &str) -> (mime: Option<String>)
    ensures
        match mime {
            Some(text) => mime_of(ext@) == Some(text@),
            None => mime_of(ext@).is_none(),
        },
{
    if text_eq(ext, "png") {
        Some(String::from_str("image/png"))
    } else if text_eq(ext, "jpg") || text_eq(ext, "jpeg") {
        Some(String::from_str("image/jpeg"))
    } else if text_eq(ext, "gif") {
        Some(String::from_str("image/gif"))
    } else if text_eq(ext, "svg") {
        Some(String::from_str("image/svg+xml"))
    } else if text_eq(ext, "webp") {
        Some(String::from_str("image/webp"))
    } else {
        None
    }
}

/// The base64 encoding of the bytes, with the standard alphabet and with
/// padding.
pub uninterp spec fn base64_of(data: Seq<u8>) -> Seq<char>;

/// Whether data of this length can be encoded: the length of its encoding
/// fits the machine.
pub open spec fn is_encodable(len: nat) -> bool {
    (len / 3) * 4 + 4 <= usize::MAX
}

/// `base64::Engine::encode` of the engine `general_purpose::STANDARD`: the
/// text is the standard base64 encoding of the bytes, known here by name
/// only. The call fails where the length of the encoding does not fit the
/// machine, so such data is left out.
#[verifier::external_body]
fn base64_encode(data: &[u8]) -> (text: String)
    requires
        is_encodable(data@.len()),
    ensures
        text@ == base64_of(data@),
{
    base64::Engine::encode(&base64::engine::general_purpose::STANDARD, data)
}

/// The data URI for an image of the given MIME type and base64 text.
pub open spec fn data_uri_of(mime: Seq<char>, encoded: Seq<char>) -> Seq<char> {
    "data:"@ + mime + ";base64,"@ + encoded
}

/// Puts together the data URI of an image from its MIME type and its base64
/// text.
pub fn data_uri(mime: &str, encoded: &str) -> (uri: String)
    ensures
        uri@ == data_uri_of(mime@, encoded@),
{
    String::from_str("data:").concat(mime).concat(";base64,").concat(encoded)
}

/// Whether `r` is the data URI of the image at `path` with the bytes
/// `data`, or the failure that is due: `Unsupported` where the extension is
/// not that of a supported image, `Other` where the data is too long to
/// encode.
pub open spec fn is_image_uri(path: Seq<char>, data: Seq<u8>, r: Result<String, AppError>) -> bool {
    let ext = lower_extension_of(path);
    match r {
        Ok(uri) => mime_of(ext) is Some && is_encodable(data.len()) && uri@ == data_uri_of(
            mime_of(ext)->0,
            base64_of(data),
        ),
        Err(e) => if mime_of(ext) is None {
            e is Unsupported && e.detail() == "Unsupported image extension: "@ + ext
        } else {
            !is_encodable(data.len()) && e is Other && e.detail()
                == "Image is too large to encode"@
        },
    }
}

/// Turns the bytes of an image file into a data URI, by the extension of
/// its path.
pub fn get_image_base64(path: &str, data: &[u8]) -> (r: Result<String, AppError>)
    ensures
        is_image_uri(path@, data@, r),
{
    let ext = lower_extension(path);
    let mime = match mime_type(ext.as_str()) {
        Some(text) => text,
        None => {
            return Err(
                AppError::Unsupported(
                    String::from_str("Unsupported image extension: ").concat(ext.as_str()),
                ),
            );
        },
    };
    if data.len() / 3 > (usize::MAX - 4) / 4 {
        return Err(AppError::Other(String::from_str("Image is too large to encode")));
    }
    let encoded = base64_encode(data);
    Ok(data_uri(mime.as_str(), encoded.as_str()))
}

/// Whether a note uses the image of the given name: its text could be read
/// and holds the name.
pub open spec fn uses_image(note: MarkdownFileView, name: Seq<char>) -> bool {
    note.content matches Some(text) && occurs_in(encode_utf8(text), encode_utf8(name))
}

/// The paths of those of the first `count` notes that use the image.
pub open spec fn used_among(notes: Seq<MarkdownFileView>, name: Seq<char>, count: int) -> Seq<
    Seq<char>,
>
    decreases count,
{
    if count <= 0 {
        Seq::empty()
    } else if uses_image(notes[count - 1], name) {
        used_among(notes, name, count - 1).push(notes[count - 1].path)
    } else {
        used_among(notes, name, count - 1)
    }
}

/// What is known of a found image, given the notes of the folder.
pub open spec fn info_of(image: ImageFileView, notes: Seq<MarkdownFileView>) -> ImageInfoView {
    ImageInfoView {
        path: image.path,
        name: name_of(image.path),
        size: match image.size {
            Some(size) => size,
            None => 0,
        },
        extension: lower_extension_of(image.path),
        used_in: used_among(notes, name_of(image.path), notes.len() as int),
    }
}

/// Collects the paths of the notes that use the image of the given name.
pub fn find_uses(notes: &Vec<MarkdownFile>, name: &str) -> (used_in: Vec<String>)
    ensures
        used_in@.map_values(|p: String| p@) == used_among(
            files_view(notes@),
            name@,
            notes@.len() as int,
        ),
{
    let ghost all = files_view(notes@);
    let wanted = name.as_bytes();
    let mut used_in: Vec<String> = Vec::new();
    let mut i: usize = 0;
    assert(used_in@.map_values(|p: String| p@) =~= used_among(all, name@, 0));
    while i < notes.len()
        invariant
            all == files_view(notes@),
            wanted@ == encode_utf8(name@),
            i <= notes@.len(),
            used_in@.map_values(|p: String| p@) == used_among(all, name@, i as int),
        decreases notes@.len() - i,
    {
        let note = &notes[i];
        let ghost so_far = used_in@.map_values(|p: String| p@);
        assert(note@ == all[i as int]);
        let uses = match &note.content {
            Some(text) => contains_bytes(text.as_str().as_bytes(), wanted),
            None => false,
        };
        if uses {
            let path = note.path.clone();
            assert(used_in@.push(path).map_values(|p: String| p@) =~= so_far.push(path@));
            used_in.push(path);
        }
        i = i + 1;
    }
    used_in
}

/// The keys by which images are ordered: the lowercase forms of their file
/// names.
pub open spec fn image_keys(images: Seq<ImageFileView>) -> Seq<Seq<u8>> {
    images.map_values(|i: ImageFileView| encode_utf8(lowercase_of(name_of(i.path))))
}

/// The places of the images in the order of their lowercase names, images
/// of one name in the order in which they were found.
pub open spec fn image_order(images: Seq<ImageFileView>) -> Seq<usize> {
    ordering(key_order(image_keys(images)), images.len())
}

/// What is known of the first `count` images of `order`.
pub open spec fn infos_among(
    images: Seq<ImageFileView>,
    notes: Seq<MarkdownFileView>,
    order: Seq<usize>,
    count: int,
) -> Seq<ImageInfoView>
    decreases count,
{
    if count <= 0 {
        Seq::empty()
    } else {
        infos_among(images, notes, order, count - 1).push(
            info_of(images[order[count - 1] as int], notes),
        )
    }
}

/// What the image scan returns: what is known of each image, in the order
/// of the lowercase names.
pub open spec fn scanned_images(
    images: Seq<ImageFileView>,
    notes: Seq<MarkdownFileView>,
) -> Seq<ImageInfoView> {
    infos_among(images, notes, image_order(images), images.len() as int)
}

/// Describes the images of a folder: name, size, extension, and the notes
/// whose text holds the name, ordered by the lowercase names.
pub fn scan_images(images: &Vec<ImageFile>, notes: &Vec<MarkdownFile>) -> (infos: Vec<ImageInfo>)
    ensures
        images_view(infos@) == scanned_images(image_files_view(images@), files_view(notes@)),
{
    let ghost found = image_files_view(images@);
    let ghost all = files_view(notes@);
    let n = images.len();
    let mut keys: Vec<String> = Vec::new();
    let mut i: usize = 0;
    while i < n
        invariant
            found == image_files_view(images@),
            n == images@.len(),
            i <= n,
            keys@.len() == i,
            forall|k: int| 0 <= k < i ==> encode_utf8((#[trigger] keys@[k])@) == image_keys(found)[k],
        decreases n - i,
    {
        let name = file_name(images[i].path.as_str());
        assert(images@[i as int]@ == found[i as int]);
        keys.push(to_lowercase(name.as_str()));
        i = i + 1;
    }
    assert(texts_bytes(keys@) =~= image_keys(found));
    let order = sort_by_keys(&keys);
    let mut infos: Vec<ImageInfo> = Vec::new();
    let mut k: usize = 0;
    assert(images_view(infos@) =~= infos_among(found, all, order@, 0));
    while k < n
        invariant
            found == image_files_view(images@),
            all == files_view(notes@),
            n == images@.len(),
            order@.len() == n,
            is_ordering(key_order(image_keys(found)), n as nat, order@),
            k <= n,
            images_view(infos@) == infos_among(found, all, order@, k as int),
        decreases n - k,
    {
        proof {
            assert(order@.contains(order@[k as int]));
        }
        let image = &images[order[k]];
        let ghost so_far = images_view(infos@);
        assert(image@ == found[order@[k as int] as int]);
        let name = file_name(image.path.as_str());
        let used_in = find_uses(notes, name.as_str());
        let info = ImageInfo {
            path: image.path.clone(),
            extension: lower_extension(image.path.as_str()),
            size: match image.size {
                Some(size) => size,
                None => 0,
            },
            used_in,
            name,
        };
        proof {
            assert(info@ == info_of(image@, all));
            assert(images_view(infos@.push(info)) =~= so_far.push(info@));
        }
        infos.push(info);
        k = k + 1;
    }
    infos
}

} // verus!
