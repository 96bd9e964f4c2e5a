//! What a file is, for the preview: its class from its name, an image's
//! format and pixel size from its header bytes, a binary's rough kind, and
//! the cut that keeps a long text previewable.
//!
//! Reading the file is the application's business; everything here takes
//! what was read and decides.

use vstd::prelude::*;
use crate::entry::{Entry, Kind};
use crate::diff::{trim_bounds, trim_ws, Diff};
use crate::path::{file_name, file_name_of};
use crate::split::{lines_of, split_lines, views};
use crate::text::{chars_of, lower_all, lowercase_chars, push_char, str_eq, string_of};

verus! {

/// Above this, a file is described rather than shown.
pub const MAX_PREVIEW_BYTES: u64 = 10485760;

/// Images decode into textures, so their ceiling is lower than for text.
pub const MAX_IMAGE_BYTES: u64 = 8388608;

/// Lines kept from a text or code file.
pub const MAX_LINES: usize = 4000;

/// Bytes of a binary file shown as hex.
pub const HEX_BYTES: usize = 512;

/// What identifies a loaded preview: the path and the modification time, so
/// a file rewritten in place gets a new key.
#[derive(Debug, Clone, PartialEq, Eq)]
pub struct Key {
    pub path: String,
    /// Nanoseconds since the Unix epoch, when known.
    pub mtime: Option<i128>,
}

impl Key {
    pub fn of(entry: &Entry) -> (k: Key)
        ensures
            k.path == entry.path,
            k.mtime == entry.modified,
    {
        Key { path: entry.path.clone(), mtime: entry.modified }
    }
}

/// Extensions the preview draws as pictures.
#[verifier::opaque]
pub open spec fn image_extensions() -> Seq<&'static str> {
    seq!["png", "jpg", "jpeg", "gif", "webp", "bmp", "ico", "tiff", "tif", "avif", "qoi", "hdr", "exr"]
}

pub fn image_extensions_list() -> (t: Vec<&'static str>)
    ensures
        t@ == image_extensions(),
{
    reveal(image_extensions);
    let mut t: Vec<&'static str> = Vec::new();
    t.push("png");
    t.push("jpg");
    t.push("jpeg");
    t.push("gif");
    t.push("webp");
    t.push("bmp");
    t.push("ico");
    t.push("tiff");
    t.push("tif");
    t.push("avif");
    t.push("qoi");
    t.push("hdr");
    t.push("exr");
    assert(t@ =~= image_extensions());
    t
}

/// Extensions the preview treats as video.
#[verifier::opaque]
pub open spec fn video_extensions() -> Seq<&'static str> {
    seq!["mp4", "mkv", "webm", "mov", "avi", "m4v", "wmv", "flv", "mpg", "mpeg", "ogv"]
}

pub fn video_extensions_list() -> (t: Vec<&'static str>)
    ensures
        t@ == video_extensions(),
{
    reveal(video_extensions);
    let mut t: Vec<&'static str> = Vec::new();
    t.push("mp4");
    t.push("mkv");
    t.push("webm");
    t.push("mov");
    t.push("avi");
    t.push("m4v");
    t.push("wmv");
    t.push("flv");
    t.push("mpg");
    t.push("mpeg");
    t.push("ogv");
    assert(t@ =~= video_extensions());
    t
}

/// Extensions that are text but have no grammar enabled.
#[verifier::opaque]
pub open spec fn plain_text_extensions() -> Seq<&'static str> {
    seq!["txt", "log", "cfg", "conf", "ini", "env", "desktop", "service", "rules", "gitignore", "gitattributes", "editorconfig", "lock", "csv", "tsv", "sql", "xml", "svg", "qml", "kdl", "nix", "vim", "el", "org", "rst", "tex"]
}

pub fn plain_text_extensions_list() -> (t: Vec<&'static str>)
    ensures
        t@ == plain_text_extensions(),
{
    reveal(plain_text_extensions);
    let mut t: Vec<&'static str> = Vec::new();
    t.push("txt");
    t.push("log");
    t.push("cfg");
    t.push("conf");
    t.push("ini");
    t.push("env");
    t.push("desktop");
    t.push("service");
    t.push("rules");
    t.push("gitignore");
    t.push("gitattributes");
    t.push("editorconfig");
    t.push("lock");
    t.push("csv");
    t.push("tsv");
    t.push("sql");
    t.push("xml");
    t.push("svg");
    t.push("qml");
    t.push("kdl");
    t.push("nix");
    t.push("vim");
    t.push("el");
    t.push("org");
    t.push("rst");
    t.push("tex");
    assert(t@ =~= plain_text_extensions());
    t
}

/// Extension to grammar name. A name the highlighter does not know degrades
/// to plain text, so listing one here is never a risk.
#[verifier::opaque]
pub open spec fn languages() -> Seq<(&'static str, &'static str)> {
    seq![("rs", "rust"), ("toml", "toml"), ("json", "json"), ("md", "markdown"), ("markdown", "markdown"), ("sh", "bash"), ("bash", "bash"), ("zsh", "bash"), ("fish", "bash"), ("js", "javascript"), ("mjs", "javascript"), ("cjs", "javascript"), ("jsx", "tsx"), ("ts", "typescript"), ("tsx", "tsx"), ("py", "python"), ("lua", "lua"), ("c", "c"), ("h", "c"), ("cpp", "cpp"), ("cc", "cpp"), ("hpp", "cpp"), ("go", "go"), ("css", "css"), ("html", "html"), ("htm", "html"), ("yaml", "yaml"), ("yml", "yaml"), ("diff", "diff"), ("patch", "diff")]
}

pub fn languages_list() -> (t: Vec<(&'static str, &'static str)>)
    ensures
        t@ == languages(),
{
    reveal(languages);
    let mut t: Vec<(&'static str, &'static str)> = Vec::new();
    t.push(("rs", "rust"));
    t.push(("toml", "toml"));
    t.push(("json", "json"));
    t.push(("md", "markdown"));
    t.push(("markdown", "markdown"));
    t.push(("sh", "bash"));
    t.push(("bash", "bash"));
    t.push(("zsh", "bash"));
    t.push(("fish", "bash"));
    t.push(("js", "javascript"));
    t.push(("mjs", "javascript"));
    t.push(("cjs", "javascript"));
    t.push(("jsx", "tsx"));
    t.push(("ts", "typescript"));
    t.push(("tsx", "tsx"));
    t.push(("py", "python"));
    t.push(("lua", "lua"));
    t.push(("c", "c"));
    t.push(("h", "c"));
    t.push(("cpp", "cpp"));
    t.push(("cc", "cpp"));
    t.push(("hpp", "cpp"));
    t.push(("go", "go"));
    t.push(("css", "css"));
    t.push(("html", "html"));
    t.push(("htm", "html"));
    t.push(("yaml", "yaml"));
    t.push(("yml", "yaml"));
    t.push(("diff", "diff"));
    t.push(("patch", "diff"));
    assert(t@ =~= languages());
    t
}

pub open spec fn listed(list: Seq<&'static str>, e: Seq<char>) -> bool {
    exists|i: int| 0 <= i < list.len() && (#[trigger] list[i])@ == e
}

/// Whether `e` is one of `list`.
pub fn is_listed(list: &Vec<&'static str>, e: &str) -> (r: bool)
    ensures
        r == listed(list@, e@),
{
    let mut i: usize = 0;
    while i < list.len()
        invariant
            i <= list@.len(),
            forall|j: int| 0 <= j < i ==> (#[trigger] list@[j])@ != e@,
        decreases list@.len() - i,
    {
        if str_eq(list[i], e) {
            return true;
        }
        i += 1;
    }
    false
}

/// The grammar the first entry for `e` names.
pub open spec fn language_in(table: Seq<(&'static str, &'static str)>, e: Seq<char>) -> Option<&'static str>
    decreases table.len(),
{
    if table.len() == 0 {
        None
    } else if table[0].0@ == e {
        Some(table[0].1)
    } else {
        language_in(table.skip(1), e)
    }
}

pub fn language_for(e: &str) -> (r: Option<&'static str>)
    ensures
        r == language_in(languages(), e@),
{
    let table = languages_list();
    let mut i: usize = 0;
    assert(table@.skip(0) =~= table@);
    while i < table.len()
        invariant
            i <= table@.len(),
            table@ == languages(),
            language_in(table@, e@) == language_in(table@.skip(i as int), e@),
        decreases table@.len() - i,
    {
        assert(table@.skip(i as int)[0] == table@[i as int]);
        if str_eq(table[i].0, e) {
            return Some(table[i].1);
        }
        assert(table@.skip(i as int).skip(1) =~= table@.skip(i + 1));
        i += 1;
    }
    None
}

/// Index of the last `.` in `s`, or -1.
pub open spec fn last_dot(s: Seq<char>) -> int
    decreases s.len(),
{
    if s.len() == 0 {
        -1
    } else if s.last() == '.' {
        s.len() - 1
    } else {
        last_dot(s.drop_last())
    }
}

/// The extension a file name is read by, lowercased: what follows the last
/// dot — or, for a dotfile such as `.gitignore`, which has no stem, the name
/// after its dot.
pub open spec fn extension_of_name(name: Seq<char>) -> Option<Seq<char>> {
    let i = last_dot(name);
    if i > 0 {
        Some(lower_all(name.skip(i + 1)))
    } else if name.len() > 0 && name[0] == '.' {
        Some(lower_all(name.skip(1)))
    } else {
        None
    }
}

pub open spec fn extension_spec(path: Seq<char>) -> Option<Seq<char>> {
    match file_name_of(path) {
        Some(name) => extension_of_name(name),
        None => None,
    }
}

/// The extension `path` is classified by.
pub fn extension_of(path: &str) -> (r: Option<String>)
    ensures
        match r {
            Some(e) => extension_spec(path@) == Some(e@),
            None => extension_spec(path@) is None,
        },
{
    let name = match file_name(path) {
        Some(n) => n,
        None => return None,
    };
    let cs = chars_of(name.as_str());
    let mut k = cs.len();
    assert(cs@.take(cs@.len() as int) =~= cs@);
    while k > 0 && cs[k - 1] != '.'
        invariant
            k <= cs@.len(),
            last_dot(cs@) == last_dot(cs@.take(k as int)),
        decreases k,
    {
        assert(cs@.take(k as int).drop_last() =~= cs@.take(k - 1));
        k -= 1;
    }
    assert(cs@.take(cs@.len() as int) =~= cs@);
    let from = if k > 1 {
        assert(last_dot(cs@.take(k as int)) == k - 1);
        k
    } else if cs.len() > 0 && cs[0] == '.' {
        proof {
            if k == 1 {
                assert(last_dot(cs@.take(1)) == 0);
            } else {
                assert(k == 0);
            }
        }
        1
    } else {
        proof {
            if k == 1 {
                assert(cs@.take(1).last() == cs@[0]);
            }
        }
        return None;
    };
    let rest = crate::split::slice_chars(&cs, from, cs.len());
    assert(rest@ =~= cs@.skip(from as int));
    let lower = lowercase_chars(&rest);
    Some(string_of(&lower, 0, lower.len()))
}

/// What kind of thing an extension promises.
#[derive(Debug, Clone, Copy, PartialEq, Eq)]
pub enum Class {
    Image,
    Video,
    /// Text, with the grammar to highlight it by if there is one.
    Text(Option<&'static str>),
    /// No extension, or one without a rule: decided by sniffing.
    Unknown,
}

pub open spec fn class_of(path: Seq<char>) -> Class {
    match extension_spec(path) {
        None => Class::Unknown,
        Some(e) => if listed(image_extensions(), e) {
            Class::Image
        } else if listed(video_extensions(), e) {
            Class::Video
        } else {
            match language_in(languages(), e) {
                Some(l) => Class::Text(Some(l)),
                None => if listed(plain_text_extensions(), e) { Class::Text(None) } else { Class::Unknown },
            }
        },
    }
}

/// What `path`'s name promises.
pub fn classify(path: &str) -> (c: Class)
    ensures
        c == class_of(path@),
{
    let e = match extension_of(path) {
        Some(e) => e,
        None => return Class::Unknown,
    };
    if is_listed(&image_extensions_list(), e.as_str()) {
        return Class::Image;
    }
    if is_listed(&video_extensions_list(), e.as_str()) {
        return Class::Video;
    }
    match language_for(e.as_str()) {
        Some(l) => Class::Text(Some(l)),
        None => if is_listed(&plain_text_extensions_list(), e.as_str()) {
            Class::Text(None)
        } else {
            Class::Unknown
        },
    }
}

/// Whether the file is a picture the preview would draw.
pub fn is_image(path: &str) -> (r: bool)
    ensures
        r == (class_of(path@) == Class::Image),
{
    match classify(path) {
        Class::Image => true,
        _ => false,
    }
}

/// The picture formats the renderer decodes.
#[derive(Debug, Clone, Copy, PartialEq, Eq, Structural)]
pub enum ImageFormat {
    Png,
    Jpeg,
    Gif,
    Webp,
    Bmp,
    Ico,
    Tiff,
    Svg,
}

/// The format an image's first bytes announce.
pub open spec fn magic_format(b: Seq<u8>) -> Option<ImageFormat> {
    if b.len() >= 8 && b[0] == 0x89 && b[1] == 0x50 && b[2] == 0x4e && b[3] == 0x47 && b[4] == 0x0d && b[5] == 0x0a && b[6] == 0x1a && b[7] == 0x0a {
        Some(ImageFormat::Png)
    } else if b.len() >= 3 && b[0] == 0xff && b[1] == 0xd8 && b[2] == 0xff {
        Some(ImageFormat::Jpeg)
    } else if b.len() >= 4 && b[0] == 0x47 && b[1] == 0x49 && b[2] == 0x46 && b[3] == 0x38 {
        Some(ImageFormat::Gif)
    } else if b.len() >= 2 && b[0] == 0x42 && b[1] == 0x4d {
        Some(ImageFormat::Bmp)
    } else if b.len() >= 4 && ((b[0] == 0x49 && b[1] == 0x49 && b[2] == 0x2a && b[3] == 0x00) || (b[0] == 0x4d && b[1] == 0x4d && b[2] == 0x00 && b[3] == 0x2a)) {
        Some(ImageFormat::Tiff)
    } else if b.len() >= 12 && b[0] == 0x52 && b[1] == 0x49 && b[2] == 0x46 && b[3] == 0x46 && b[8] == 0x57 && b[9] == 0x45 && b[10] == 0x42 && b[11] == 0x50 {
        Some(ImageFormat::Webp)
    } else {
        None
    }
}

pub fn magic_image_format(b: &[u8]) -> (r: Option<ImageFormat>)
    ensures
        r == magic_format(b@),
{
    let n = b.len();
    if n >= 8 && b[0] == 0x89 && b[1] == 0x50 && b[2] == 0x4e && b[3] == 0x47 && b[4] == 0x0d && b[5] == 0x0a && b[6] == 0x1a && b[7] == 0x0a {
        Some(ImageFormat::Png)
    } else if n >= 3 && b[0] == 0xff && b[1] == 0xd8 && b[2] == 0xff {
        Some(ImageFormat::Jpeg)
    } else if n >= 4 && b[0] == 0x47 && b[1] == 0x49 && b[2] == 0x46 && b[3] == 0x38 {
        Some(ImageFormat::Gif)
    } else if n >= 2 && b[0] == 0x42 && b[1] == 0x4d {
        Some(ImageFormat::Bmp)
    } else if n >= 4 && ((b[0] == 0x49 && b[1] == 0x49 && b[2] == 0x2a && b[3] == 0x00) || (b[0] == 0x4d && b[1] == 0x4d && b[2] == 0x00 && b[3] == 0x2a)) {
        Some(ImageFormat::Tiff)
    } else if n >= 12 && b[0] == 0x52 && b[1] == 0x49 && b[2] == 0x46 && b[3] == 0x46 && b[8] == 0x57 && b[9] == 0x45 && b[10] == 0x42 && b[11] == 0x50 {
        Some(ImageFormat::Webp)
    } else {
        None
    }
}

/// The format an extension names, when it names one the renderer decodes.
pub open spec fn format_of_extension(e: Seq<char>) -> Option<ImageFormat> {
    if e == "png"@ {
        Some(ImageFormat::Png)
    } else if e == "jpg"@ || e == "jpeg"@ {
        Some(ImageFormat::Jpeg)
    } else if e == "gif"@ {
        Some(ImageFormat::Gif)
    } else if e == "webp"@ {
        Some(ImageFormat::Webp)
    } else if e == "bmp"@ {
        Some(ImageFormat::Bmp)
    } else if e == "ico"@ {
        Some(ImageFormat::Ico)
    } else if e == "tif"@ || e == "tiff"@ {
        Some(ImageFormat::Tiff)
    } else if e == "svg"@ {
        Some(ImageFormat::Svg)
    } else {
        None
    }
}

/// The extension proper (no dotfile rule), lowercased.
pub open spec fn plain_extension(path: Seq<char>) -> Option<Seq<char>> {
    match file_name_of(path) {
        Some(name) => if last_dot(name) > 0 { Some(lower_all(name.skip(last_dot(name) + 1))) } else { None },
        None => None,
    }
}

/// An image's format: the bytes first, then the name — a `.jpg` that is
/// really a PNG is common enough that trusting the name would be a bug.
pub open spec fn image_format_spec(path: Seq<char>, b: Seq<u8>) -> Option<ImageFormat> {
    match magic_format(b) {
        Some(f) => Some(f),
        None => match plain_extension(path) {
            Some(e) => format_of_extension(e),
            None => None,
        },
    }
}

pub fn image_format(path: &str, b: &[u8]) -> (r: Option<ImageFormat>)
    ensures
        r == image_format_spec(path@, b@),
{
    if let Some(f) = magic_image_format(b) {
        return Some(f);
    }
    let name = match file_name(path) {
        Some(n) => n,
        None => return None,
    };
    let cs = chars_of(name.as_str());
    let mut k = cs.len();
    assert(cs@.take(cs@.len() as int) =~= cs@);
    while k > 0 && cs[k - 1] != '.'
        invariant
            k <= cs@.len(),
            last_dot(cs@) == last_dot(cs@.take(k as int)),
        decreases k,
    {
        assert(cs@.take(k as int).drop_last() =~= cs@.take(k - 1));
        k -= 1;
    }
    assert(cs@.take(cs@.len() as int) =~= cs@);
    if k <= 1 {
        proof {
            if k == 1 {
                assert(last_dot(cs@.take(1)) <= 0);
            }
        }
        return None;
    }
    assert(last_dot(cs@.take(k as int)) == k - 1);
    let rest = crate::split::slice_chars(&cs, k, cs.len());
    assert(rest@ =~= cs@.skip(k as int));
    let e = lowercase_chars(&rest);
    let is = |w: &str| -> (r: bool)
        ensures
            r == (e@ == w@),
    {
        crate::text::chars_equal(&e, &chars_of(w))
    };
    if is("png") {
        Some(ImageFormat::Png)
    } else if is("jpg") || is("jpeg") {
        Some(ImageFormat::Jpeg)
    } else if is("gif") {
        Some(ImageFormat::Gif)
    } else if is("webp") {
        Some(ImageFormat::Webp)
    } else if is("bmp") {
        Some(ImageFormat::Bmp)
    } else if is("ico") {
        Some(ImageFormat::Ico)
    } else if is("tif") || is("tiff") {
        Some(ImageFormat::Tiff)
    } else if is("svg") {
        Some(ImageFormat::Svg)
    } else {
        None
    }
}

pub open spec fn be32(b: Seq<u8>, o: int) -> Option<int> {
    if 0 <= o && o + 4 <= b.len() {
        Some(b[o] * 16777216 + b[o + 1] * 65536 + b[o + 2] * 256 + b[o + 3])
    } else {
        None
    }
}

pub open spec fn le16(b: Seq<u8>, o: int) -> Option<int> {
    if 0 <= o && o + 2 <= b.len() {
        Some(b[o] + b[o + 1] * 256)
    } else {
        None
    }
}

/// The magnitude of a little-endian `i32`: a negative BMP height means a
/// top-down bitmap, not a negative size.
pub open spec fn le32_magnitude(b: Seq<u8>, o: int) -> Option<int> {
    if 0 <= o && o + 4 <= b.len() {
        let v = b[o] + b[o + 1] * 256 + b[o + 2] * 65536 + b[o + 3] * 16777216;
        Some(if v >= 2147483648 { 4294967296 - v } else { v })
    } else {
        None
    }
}

pub open spec fn is_frame_marker(m: u8) -> bool {
    0xc0 <= m && m <= 0xcf && m != 0xc4 && m != 0xc8 && m != 0xcc
}

/// JPEG has no fixed header: walk the segment chain from `i` to the frame
/// marker, which carries the size.
pub open spec fn jpeg_walk(b: Seq<u8>, i: int) -> Option<(int, int)>
    decreases if i < b.len() { b.len() - i } else { 0 },
{
    if i < 0 || i + 8 >= b.len() {
        None
    } else if b[i] != 0xff {
        jpeg_walk(b, i + 1)
    } else if is_frame_marker(b[i + 1]) {
        Some((b[i + 7] * 256 + b[i + 8], b[i + 5] * 256 + b[i + 6]))
    } else {
        let length = b[i + 2] * 256 + b[i + 3];
        if length < 2 {
            None
        } else {
            jpeg_walk(b, i + 2 + length)
        }
    }
}

pub open spec fn dimensions_of(b: Seq<u8>) -> Option<(int, int)> {
    match magic_format(b) {
        Some(ImageFormat::Png) => match (be32(b, 16), be32(b, 20)) {
            (Some(w), Some(h)) => Some((w, h)),
            _ => None,
        },
        Some(ImageFormat::Gif) => match (le16(b, 6), le16(b, 8)) {
            (Some(w), Some(h)) => Some((w, h)),
            _ => None,
        },
        Some(ImageFormat::Bmp) => match (le32_magnitude(b, 18), le32_magnitude(b, 22)) {
            (Some(w), Some(h)) => Some((w, h)),
            _ => None,
        },
        Some(ImageFormat::Jpeg) => jpeg_walk(b, 2),
        _ => None,
    }
}

pub open spec fn dims_view(r: Option<(u32, u32)>) -> Option<(int, int)> {
    match r {
        Some((w, h)) => Some((w as int, h as int)),
        None => None,
    }
}

/// The frame size a JPEG's segment chain leads to.
pub fn jpeg_dimensions(b: &[u8]) -> (r: Option<(u32, u32)>)
    requires
        b@.len() <= isize::MAX,
    ensures
        dims_view(r) == jpeg_walk(b@, 2),
{
    let mut i: usize = 2;
    while i + 8 < b.len()
        invariant
            2 <= i,
            i <= isize::MAX + 65537,
            b@.len() <= isize::MAX,
            jpeg_walk(b@, 2) == jpeg_walk(b@, i as int),
        decreases if i < b@.len() { b@.len() - i } else { 0 },
    {
        if b[i] != 0xff {
            i += 1;
            continue;
        }
        let marker = b[i + 1];
        if 0xc0 <= marker && marker <= 0xcf && marker != 0xc4 && marker != 0xc8 && marker != 0xcc {
            let height = (b[i + 5] as u32) * 256 + b[i + 6] as u32;
            let width = (b[i + 7] as u32) * 256 + b[i + 8] as u32;
            return Some((width, height));
        }
        let length = (b[i + 2] as usize) * 256 + b[i + 3] as usize;
        if length < 2 {
            return None;
        }
        i += 2 + length;
    }
    None
}

fn be32_at(b: &[u8], o: usize) -> (r: Option<u32>)
    ensures
        match r {
            Some(v) => be32(b@, o as int) == Some(v as int),
            None => be32(b@, o as int) is None,
        },
{
    if o > b.len() || b.len() - o < 4 {
        return None;
    }
    Some((b[o] as u32) * 16777216 + (b[o + 1] as u32) * 65536 + (b[o + 2] as u32) * 256 + b[o + 3] as u32)
}

fn le16_at(b: &[u8], o: usize) -> (r: Option<u32>)
    ensures
        match r {
            Some(v) => le16(b@, o as int) == Some(v as int),
            None => le16(b@, o as int) is None,
        },
{
    if o > b.len() || b.len() - o < 2 {
        return None;
    }
    Some(b[o] as u32 + (b[o + 1] as u32) * 256)
}

fn le32_magnitude_at(b: &[u8], o: usize) -> (r: Option<u32>)
    ensures
        match r {
            Some(v) => le32_magnitude(b@, o as int) == Some(v as int),
            None => le32_magnitude(b@, o as int) is None,
        },
{
    if o > b.len() || b.len() - o < 4 {
        return None;
    }
    let v: u64 = b[o] as u64 + (b[o + 1] as u64) * 256 + (b[o + 2] as u64) * 65536 + (b[o + 3] as u64) * 16777216;
    if v >= 2147483648 {
        Some((4294967296 - v) as u32)
    } else {
        Some(v as u32)
    }
}

/// Pixel dimensions from an image header, for the formats whose headers
/// say them: PNG, GIF, BMP and JPEG.
pub fn image_dimensions(b: &[u8]) -> (r: Option<(u32, u32)>)
    requires
        b@.len() <= isize::MAX,
    ensures
        dims_view(r) == dimensions_of(b@),
{
    match magic_image_format(b) {
        Some(ImageFormat::Png) => match (be32_at(b, 16), be32_at(b, 20)) {
            (Some(w), Some(h)) => Some((w, h)),
            _ => None,
        },
        Some(ImageFormat::Gif) => match (le16_at(b, 6), le16_at(b, 8)) {
            (Some(w), Some(h)) => Some((w, h)),
            _ => None,
        },
        Some(ImageFormat::Bmp) => match (le32_magnitude_at(b, 18), le32_magnitude_at(b, 22)) {
            (Some(w), Some(h)) => Some((w, h)),
            _ => None,
        },
        Some(ImageFormat::Jpeg) => jpeg_dimensions(b),
        _ => None,
    }
}

/// A rough type for a binary file, from its magic bytes.
pub open spec fn kind_of_bytes(b: Seq<u8>) -> &'static str {
    if b.len() >= 4 && b[0] == 0x7f && b[1] == 0x45 && b[2] == 0x4c && b[3] == 0x46 {
        "executable"
    } else if b.len() >= 4 && b[0] == 0x50 && b[1] == 0x4b && b[2] == 0x03 && b[3] == 0x04 {
        "zip archive"
    } else if b.len() >= 2 && b[0] == 0x1f && b[1] == 0x8b {
        "gzip"
    } else if b.len() >= 5 && b[0] == 0xfd && b[1] == 0x37 && b[2] == 0x7a && b[3] == 0x58 && b[4] == 0x5a {
        "xz"
    } else if b.len() >= 4 && b[0] == 0x25 && b[1] == 0x50 && b[2] == 0x44 && b[3] == 0x46 {
        "pdf"
    } else if b.len() >= 4 && b[0] == 0x4f && b[1] == 0x67 && b[2] == 0x67 && b[3] == 0x53 {
        "ogg"
    } else if b.len() >= 3 && b[0] == 0x49 && b[1] == 0x44 && b[2] == 0x33 {
        "audio"
    } else if b.len() >= 4 && b[0] == 0x66 && b[1] == 0x4c && b[2] == 0x61 && b[3] == 0x43 {
        "flac"
    } else if b.len() >= 4 && b[0] == 0x00 && b[1] == 0x61 && b[2] == 0x73 && b[3] == 0x6d {
        "wasm"
    } else {
        "binary"
    }
}

pub fn magic_kind(b: &[u8]) -> (r: &'static str)
    ensures
        r == kind_of_bytes(b@),
{
    let n = b.len();
    if n >= 4 && b[0] == 0x7f && b[1] == 0x45 && b[2] == 0x4c && b[3] == 0x46 {
        "executable"
    } else if n >= 4 && b[0] == 0x50 && b[1] == 0x4b && b[2] == 0x03 && b[3] == 0x04 {
        "zip archive"
    } else if n >= 2 && b[0] == 0x1f && b[1] == 0x8b {
        "gzip"
    } else if n >= 5 && b[0] == 0xfd && b[1] == 0x37 && b[2] == 0x7a && b[3] == 0x58 && b[4] == 0x5a {
        "xz"
    } else if n >= 4 && b[0] == 0x25 && b[1] == 0x50 && b[2] == 0x44 && b[3] == 0x46 {
        "pdf"
    } else if n >= 4 && b[0] == 0x4f && b[1] == 0x67 && b[2] == 0x67 && b[3] == 0x53 {
        "ogg"
    } else if n >= 3 && b[0] == 0x49 && b[1] == 0x44 && b[2] == 0x33 {
        "audio"
    } else if n >= 4 && b[0] == 0x66 && b[1] == 0x4c && b[2] == 0x61 && b[3] == 0x43 {
        "flac"
    } else if n >= 4 && b[0] == 0x00 && b[1] == 0x61 && b[2] == 0x73 && b[3] == 0x6d {
        "wasm"
    } else {
        "binary"
    }
}

/// Lines joined by `\n`.
pub open spec fn joined(ls: Seq<Seq<char>>) -> Seq<char>
    decreases ls.len(),
{
    if ls.len() == 0 {
        Seq::empty()
    } else if ls.len() == 1 {
        ls[0]
    } else {
        joined(ls.drop_last()) + seq!['\n'] + ls.last()
    }
}

/// Keep at most `max` lines, reporting whether anything was dropped. A text
/// short enough to show whole comes back as it was.
pub fn truncate_lines(text: String, max: usize) -> (r: (String, bool))
    ensures
        lines_of(text@).len() <= max ==> r.0@ == text@ && !r.1,
        lines_of(text@).len() > max ==> r.0@ == joined(lines_of(text@).take(max as int)) && r.1,
{
    let cs = chars_of(text.as_str());
    let ls = split_lines(&cs);
    let ghost all = views(ls@);
    if ls.len() <= max {
        return (text, false);
    }
    let mut out = String::new();
    let mut i: usize = 0;
    assert(all.take(0) =~= Seq::<Seq<char>>::empty());
    while i < max
        invariant
            i <= max < ls@.len(),
            all == views(ls@),
            out@ == joined(all.take(i as int)),
        decreases max - i,
    {
        let l = &ls[i];
        let ghost before = out@;
        if i > 0 {
            push_char(&mut out, '\n');
        }
        let mut k: usize = 0;
        let ghost base = out@;
        while k < l.len()
            invariant
                k <= l@.len(),
                out@ == base + l@.take(k as int),
            decreases l@.len() - k,
        {
            push_char(&mut out, l[k]);
            k += 1;
            assert(out@ =~= base + l@.take(k as int));
        }
        proof {
            let t = all.take(i + 1);
            assert(t.drop_last() =~= all.take(i as int));
            assert(t.last() == l@);
            assert(l@.take(l@.len() as int) =~= l@);
            if i == 0 {
                assert(out@ =~= l@);
            } else {
                assert(out@ =~= before + seq!['\n'] + l@);
            }
        }
        i += 1;
    }
    (out, true)
}

/// What a preview shows of an entry.
#[derive(Debug)]
pub enum Body {
    /// Directories have no content to show, only a count.
    Directory { entries: Option<usize> },
    /// A picture: its bytes, the format they decode as, and its pixel size
    /// when the header could be read.
    Image { format: ImageFormat, bytes: Vec<u8>, dimensions: Option<(u32, u32)> },
    /// Rendered as markup, not shown as source.
    Markdown(String),
    /// Text, highlighted when a grammar is known.
    Text { text: String, language: Option<&'static str>, lines: usize, truncated: bool },
    /// A changed file, shown as what changed.
    Diff(Diff),
    /// A poster frame (PNG bytes) plus what `ffprobe` knows.
    Video { poster: Option<Vec<u8>>, poster_dimensions: Option<(u32, u32)>, facts: Vec<(String, String)> },
    /// Not text: a hex head and a guess at what it is.
    Binary { head: Vec<u8>, kind: &'static str },
    TooLarge { size: u64, limit: u64 },
    /// Read failed, or the file is not something that can be opened.
    Unreadable(String),
}

pub open spec fn expandable(b: Body) -> bool {
    b is Image || b is Markdown || b is Text || b is Video || b is Diff
}

pub open spec fn covered(b: Body) -> bool {
    !(b is Directory || b is TooLarge || b is Unreadable)
}

pub open spec fn body_label(b: Body) -> &'static str {
    match b {
        Body::Directory { .. } => "directory",
        Body::Image { .. } => "image",
        Body::Markdown(_) => "markdown",
        Body::Text { language, .. } => match language {
            Some(l) => l,
            None => "text",
        },
        Body::Diff(_) => "diff",
        Body::Video { .. } => "video",
        Body::Binary { kind, .. } => kind,
        Body::TooLarge { .. } => "too large",
        Body::Unreadable(_) => "unreadable",
    }
}

impl Body {
    /// Whether a fullscreen view would show more than the pane already
    /// does: not for a directory, a file too large to read, a binary or an
    /// unreadable one.
    pub fn is_expandable(&self) -> (r: bool)
        ensures
            r == expandable(*self),
    {
        match self {
            Body::Image { .. } | Body::Markdown(_) | Body::Text { .. } | Body::Video { .. } | Body::Diff(_) => true,
            _ => false,
        }
    }

    /// Whether the pane has anything visual to put in its cover area.
    pub fn has_cover(&self) -> (r: bool)
        ensures
            r == covered(*self),
    {
        match self {
            Body::Directory { .. } | Body::TooLarge { .. } | Body::Unreadable(_) => false,
            _ => true,
        }
    }

    /// A one-word label for the fact table.
    pub fn label(&self) -> (r: &'static str)
        ensures
            r == body_label(*self),
    {
        match self {
            Body::Directory { .. } => "directory",
            Body::Image { .. } => "image",
            Body::Markdown(_) => "markdown",
            Body::Text { language, .. } => match language {
                Some(l) => l,
                None => "text",
            },
            Body::Diff(_) => "diff",
            Body::Video { .. } => "video",
            Body::Binary { kind, .. } => kind,
            Body::TooLarge { .. } => "too large",
            Body::Unreadable(_) => "unreadable",
        }
    }
}

/// A file, read and classified.
#[derive(Debug)]
pub struct Preview {
    pub key: Key,
    pub name: String,
    pub size: Option<u64>,
    /// Independent of what the link resolves to: a symlink that previews as
    /// a small text file is not a small file.
    pub is_symlink: bool,
    pub body: Body,
}

impl Preview {
    /// The preview of `entry`, whose content came to `body`.
    pub fn of(entry: &Entry, body: Body) -> (p: Preview)
        ensures
            p.key.path == entry.path,
            p.key.mtime == entry.modified,
            p.name == entry.name,
            p.size == entry.size,
            p.is_symlink == entry.is_symlink,
            p.body == body,
    {
        Preview { key: Key::of(entry), name: entry.name.clone(), size: entry.size, is_symlink: entry.is_symlink, body }
    }
}

/// The byte ceiling for a class: decoding an image costs far more than
/// reading the same bytes of text.
pub open spec fn limit_for(c: Class) -> u64 {
    if c == Class::Image { MAX_IMAGE_BYTES } else { MAX_PREVIEW_BYTES }
}

/// What to read of an entry to preview it.
#[derive(Debug)]
pub enum Read {
    /// A directory: count what is inside.
    CountEntries,
    /// A video: a poster frame and `ffprobe`'s facts, never the whole file.
    Video,
    /// A file of this class: read it whole and hand the bytes to
    /// `body_of_bytes`.
    Bytes(Class),
    /// Nothing to read: this is the preview.
    Done(Body),
}

/// What previewing `entry` takes. Video is exempt from the size ceiling:
/// nothing reads the whole file, only the first frame.
pub fn read_plan(entry: &Entry) -> (r: Read)
    ensures
        match entry.kind {
            Kind::Directory => r is CountEntries,
            Kind::Unresolved => r matches Read::Done(Body::Unreadable(m)) && m@ == "broken link"@,
            Kind::File => {
                let c = class_of(entry.path@);
                let size: u64 = match entry.size { Some(n) => n, None => 0 };
                if size > limit_for(c) && c != Class::Video {
                    r matches Read::Done(Body::TooLarge { size: s, limit: l }) && s == size && l == limit_for(c)
                } else if c == Class::Video {
                    r is Video
                } else {
                    r matches Read::Bytes(k) && k == c
                }
            },
        },
        entry.kind is File && class_of(entry.path@) == Class::Image
            && (match entry.size { Some(n) => n, None => 0u64 }) > MAX_PREVIEW_BYTES
            ==> (r matches Read::Done(Body::TooLarge { size: s, .. }) && Some(s) == entry.size),
{
    match entry.kind {
        Kind::Directory => Read::CountEntries,
        Kind::Unresolved => Read::Done(Body::Unreadable(String::from_str("broken link"))),
        Kind::File => {
            let class = classify(entry.path.as_str());
            let size: u64 = match entry.size {
                Some(n) => n,
                None => 0,
            };
            let limit = match class {
                Class::Image => MAX_IMAGE_BYTES,
                _ => MAX_PREVIEW_BYTES,
            };
            let video = match class {
                Class::Video => true,
                _ => false,
            };
            if size > limit && !video {
                Read::Done(Body::TooLarge { size, limit })
            } else if video {
                Read::Video
            } else {
                Read::Bytes(class)
            }
        },
    }
}

/// What `String::from_utf8` makes of a run of bytes: the text they encode,
/// or nothing when they are not UTF-8.
pub uninterp spec fn utf8_text(bytes: Seq<u8>) -> Option<Seq<char>>;

/// `String::from_utf8`: the text the bytes encode, or, when they are not
/// UTF-8, the same bytes back (`FromUtf8Error::into_bytes`).
#[verifier::external_body]
fn decode_utf8(bytes: Vec<u8>) -> (r: Result<String, Vec<u8>>)
    ensures
        match r {
            Ok(s) => utf8_text(bytes@) == Some(s@),
            Err(b) => utf8_text(bytes@) is None && b@ == bytes@,
        },
{
    match String::from_utf8(bytes) {
        Ok(s) => Ok(s),
        Err(e) => Err(e.into_bytes()),
    }
}

/// The first `HEX_BYTES` of `b`, or all of it.
pub open spec fn hex_head(b: Seq<u8>) -> Seq<u8> {
    if b.len() <= HEX_BYTES { b } else { b.take(HEX_BYTES as int) }
}

/// Not text: the hex head and what the magic bytes suggest.
pub fn binary_body(bytes: Vec<u8>) -> (r: Body)
    ensures
        r matches Body::Binary { head, kind } && head@ == hex_head(bytes@) && kind == kind_of_bytes(bytes@),
{
    let kind = magic_kind(bytes.as_slice());
    let n = if bytes.len() <= HEX_BYTES { bytes.len() } else { HEX_BYTES };
    let mut head: Vec<u8> = Vec::new();
    let mut i: usize = 0;
    while i < n
        invariant
            i <= n <= bytes@.len(),
            n == (if bytes@.len() <= HEX_BYTES { bytes@.len() } else { HEX_BYTES as nat }),
            head@ == bytes@.take(i as int),
        decreases n - i,
    {
        head.push(bytes[i]);
        i += 1;
        assert(head@ =~= bytes@.take(i as int));
    }
    assert(bytes@.take(bytes@.len() as int) =~= bytes@);
    Body::Binary { head, kind }
}

/// `text` as a text body: cut at `MAX_LINES`, its lines counted.
pub open spec fn text_shown(text: Seq<char>) -> Seq<char> {
    if lines_of(text).len() <= MAX_LINES { text } else { joined(lines_of(text).take(MAX_LINES as int)) }
}

fn text_body(text: String, language: Option<&'static str>) -> (r: Body)
    ensures
        r matches Body::Text { text: t, language: l, lines, truncated } && t@ == text_shown(text@) && l == language
            && lines == lines_of(text_shown(text@)).len() && truncated == (lines_of(text@).len() > MAX_LINES),
{
    let (shown, truncated) = truncate_lines(text, MAX_LINES);
    let cs = chars_of(shown.as_str());
    let ls = split_lines(&cs);
    assert(views(ls@).len() == ls@.len());
    Body::Text { text: shown, language, lines: ls.len(), truncated }
}

/// Whether `b` holds a zero byte.
pub open spec fn has_nul(b: Seq<u8>) -> bool {
    exists|i: int| 0 <= i < b.len() && b[i] == 0
}

/// The body for the bytes of a file of class `class` (not a video): a
/// picture when its format is known; text when the bytes are UTF-8 —
/// markup kept as markup — and otherwise the hex view. A file with no rule
/// for its name is sniffed: text unless it holds a zero byte.
pub fn body_of_bytes(class: Class, path: &str, bytes: Vec<u8>) -> (r: Body)
    requires
        class != Class::Video,
        bytes@.len() <= isize::MAX,
    ensures
        class == Class::Image ==> match image_format_spec(path@, bytes@) {
            Some(f) => r matches Body::Image { format, bytes: b, dimensions } && format == f && b@ == bytes@
                && dims_view(dimensions) == dimensions_of(bytes@),
            None => r matches Body::Unreadable(m) && m@ == "unrecognised image format"@,
        },
        class matches Class::Text(language) ==> match utf8_text(bytes@) {
            None => r matches Body::Binary { head, kind } && head@ == hex_head(bytes@) && kind == kind_of_bytes(bytes@),
            Some(text) => if language matches Some(l) && l@ == "markdown"@ {
                r matches Body::Markdown(t) && t@ == text_shown(text)
            } else {
                r matches Body::Text { text: t, language: l, lines, truncated } && t@ == text_shown(text) && l == language
                    && lines == lines_of(text_shown(text)).len() && truncated == (lines_of(text).len() > MAX_LINES)
            },
        },
        class == Class::Unknown ==> if has_nul(bytes@) || utf8_text(bytes@) is None {
            r matches Body::Binary { head, kind } && head@ == hex_head(bytes@) && kind == kind_of_bytes(bytes@)
        } else {
            r matches Body::Text { text: t, language: l, lines, truncated } && t@ == text_shown(utf8_text(bytes@)->0)
                && l is None && lines == lines_of(text_shown(utf8_text(bytes@)->0)).len()
                && truncated == (lines_of(utf8_text(bytes@)->0).len() > MAX_LINES)
        },
{
    match class {
        Class::Image => {
            match image_format(path, bytes.as_slice()) {
                Some(format) => {
                    let dimensions = image_dimensions(bytes.as_slice());
                    Body::Image { format, bytes, dimensions }
                },
                None => Body::Unreadable(String::from_str("unrecognised image format")),
            }
        },
        Class::Text(language) => {
            match decode_utf8(bytes) {
                Err(b) => binary_body(b),
                Ok(text) => {
                    let markdown = match language {
                        Some(l) => str_eq(l, "markdown"),
                        None => false,
                    };
                    if markdown {
                        let (t, _) = truncate_lines(text, MAX_LINES);
                        Body::Markdown(t)
                    } else {
                        text_body(text, language)
                    }
                },
            }
        },
        Class::Unknown => {
            let mut i: usize = 0;
            while i < bytes.len()
                invariant
                    class == Class::Unknown,
                    i <= bytes@.len(),
                    forall|k: int| 0 <= k < i ==> bytes@[k] != 0,
                decreases bytes@.len() - i,
            {
                if bytes[i] == 0 {
                    return binary_body(bytes);
                }
                i += 1;
            }
            match decode_utf8(bytes) {
                Err(b) => binary_body(b),
                Ok(text) => text_body(text, None),
            }
        },
        Class::Video => Body::Unreadable(String::new()),
    }
}

/// The first line of `lines` that begins with `prefix`, or -1.
pub open spec fn first_with(lines: Seq<Seq<char>>, prefix: Seq<char>) -> int
    decreases lines.len(),
{
    if lines.len() == 0 {
        -1
    } else if prefix.len() <= lines[0].len() && lines[0].take(prefix.len() as int) == prefix {
        0
    } else {
        let k = first_with(lines.skip(1), prefix);
        if k < 0 { -1 } else { k + 1 }
    }
}

/// What `ffprobe -of default=noprint_wrappers=1` reports for `key`: the
/// first `key=value` line's value, trimmed, unless it is empty or `N/A`.
pub open spec fn field_of(text: Seq<char>, key: Seq<char>) -> Option<Seq<char>> {
    let ls = lines_of(text);
    let prefix = key.push('=');
    let k = first_with(ls, prefix);
    if k < 0 {
        None
    } else {
        let v = trim_ws(ls[k].skip(prefix.len() as int));
        if v.len() == 0 || v == "N/A"@ { None } else { Some(v) }
    }
}

/// One field of `ffprobe`'s `key=value` output.
pub fn probe_field(text: &str, key: &str) -> (r: Option<String>)
    ensures
        match r {
            Some(v) => field_of(text@, key@) == Some(v@),
            None => field_of(text@, key@) is None,
        },
{
    let cs = chars_of(text);
    let ls = split_lines(&cs);
    let ghost all = views(ls@);
    let mut prefix = chars_of(key);
    prefix.push('=');
    let mut i: usize = 0;
    assert(all.skip(0) =~= all);
    while i < ls.len()
        invariant
            i <= ls@.len(),
            all == views(ls@),
            all == lines_of(text@),
            prefix@ == key@.push('='),
            first_with(all, prefix@) == (if first_with(all.skip(i as int), prefix@) < 0 { -1 } else {
                first_with(all.skip(i as int), prefix@) + i
            }),
        decreases ls@.len() - i,
    {
        let l = &ls[i];
        assert(all.skip(i as int)[0] == l@);
        assert(all.skip(i as int).skip(1) =~= all.skip(i + 1));
        if crate::text::matches_at(l, 0, &prefix) {
            assert(l@.subrange(0, prefix@.len() as int) =~= l@.take(prefix@.len() as int));
            let (a, b) = trim_bounds(l, prefix.len(), l.len());
            assert(l@.subrange(prefix@.len() as int, l@.len() as int) =~= l@.skip(prefix@.len() as int));
            let v = string_of(l, a, b);
            let na = chars_of("N/A");
            if a == b || crate::text::chars_equal(&chars_of(v.as_str()), &na) {
                return None;
            }
            return Some(v);
        }
        proof {
            if prefix@.len() <= l@.len() {
                assert(l@.subrange(0, prefix@.len() as int) =~= l@.take(prefix@.len() as int));
            }
        }
        i += 1;
    }
    assert(all.skip(i as int) =~= Seq::<Seq<char>>::empty());
    None
}

proof fn lemma_jpeg_walk_frame(b: Seq<u8>, i: int)
    ensures
        jpeg_walk(b, i) matches Some((w, h)) ==> exists|p: int| #![trigger b[p]]
            i <= p && p + 8 < b.len() && b[p] == 0xff && is_frame_marker(b[p + 1])
                && w == b[p + 7] * 256 + b[p + 8] && h == b[p + 5] * 256 + b[p + 6],
    decreases if i < b.len() { b.len() - i } else { 0 },
{
    if i < 0 || i + 8 >= b.len() {
    } else if b[i] != 0xff {
        lemma_jpeg_walk_frame(b, i + 1);
    } else if is_frame_marker(b[i + 1]) {
        assert(b[i] == 0xff);
    } else {
        let length = b[i + 2] * 256 + b[i + 3];
        if length >= 2 {
            lemma_jpeg_walk_frame(b, i + 2 + length);
        }
    }
}

/// A JPEG's size is the one its frame header states: the bytes with JPEG
/// magic give what the segment walk from just past the magic finds, and
/// that is a frame marker's width (the two bytes seven on) and height (the
/// two bytes five on), in that order.
pub proof fn lemma_jpeg_size_is_the_frame_header(b: Seq<u8>)
    requires
        magic_format(b) == Some(ImageFormat::Jpeg),
    ensures
        dimensions_of(b) == jpeg_walk(b, 2),
        dimensions_of(b) matches Some((w, h)) ==> exists|p: int| #![trigger b[p]]
            2 <= p && p + 8 < b.len() && b[p] == 0xff && is_frame_marker(b[p + 1])
                && w == b[p + 7] * 256 + b[p + 8] && h == b[p + 5] * 256 + b[p + 6],
{
    lemma_jpeg_walk_frame(b, 2);
}

/// A PNG's size is its `IHDR` chunk's: width in the four big-endian bytes
/// from 16, height in the four from 20; a GIF's is its screen descriptor's,
/// little-endian, width at 6 and height at 8 — always width first.
pub proof fn lemma_fixed_header_sizes(b: Seq<u8>)
    ensures
        magic_format(b) == Some(ImageFormat::Png) && b.len() >= 24 ==> dimensions_of(b) == Some((
            b[16] * 16777216 + b[17] * 65536 + b[18] * 256 + b[19] as int,
            b[20] * 16777216 + b[21] * 65536 + b[22] * 256 + b[23] as int,
        )),
        magic_format(b) == Some(ImageFormat::Gif) && b.len() >= 10 ==> dimensions_of(b) == Some((
            b[6] + b[7] * 256,
            b[8] + b[9] * 256,
        )),
{
}

} // verus!
