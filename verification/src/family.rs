//! What an entry is, for the glyph that stands for it: directories,
//! pictures, code, archives. The mapping lives here, once, so the listing,
//! the sidebar and the detail sheet all say the same thing about a file.
//!
//! By extension, like the preview's classifier, and sharing its tables: what
//! previews as an image is drawn as one.

use vstd::prelude::*;
use crate::entry::{Entry, Kind};
use crate::preview::{extension_of, extension_spec, image_extensions, image_extensions_list, is_listed, languages, language_in, language_for, listed, plain_text_extensions, plain_text_extensions_list, video_extensions, video_extensions_list};

verus! {

/// The families an entry sorts into, each with a glyph.
#[derive(Debug, Clone, Copy, PartialEq, Eq, Structural)]
pub enum Family {
    Directory,
    /// A symlink that resolves to nothing.
    Broken,
    Image,
    Video,
    Audio,
    Archive,
    /// Source with a grammar the preview knows.
    Code,
    /// Text with no grammar: notes, logs, configuration.
    Text,
    Pdf,
    Document,
    Spreadsheet,
    Slides,
    /// A file with an extension nothing here has a rule for, or none.
    Other,
}

/// Sound.
#[verifier::opaque]
pub open spec fn audio_extensions() -> Seq<&'static str> {
    seq!["mp3", "flac", "ogg", "oga", "opus", "wav", "aac", "m4a", "wma", "aiff", "alac"]
}

fn audio_extensions_list() -> (t: Vec<&'static str>)
    ensures
        t@ == audio_extensions(),
{
    reveal(audio_extensions);
    let mut t: Vec<&'static str> = Vec::new();
    t.push("mp3");
    t.push("flac");
    t.push("ogg");
    t.push("oga");
    t.push("opus");
    t.push("wav");
    t.push("aac");
    t.push("m4a");
    t.push("wma");
    t.push("aiff");
    t.push("alac");
    assert(t@ =~= audio_extensions());
    t
}

/// Archives and disk images.
#[verifier::opaque]
pub open spec fn archive_extensions() -> Seq<&'static str> {
    seq!["zip", "tar", "gz", "tgz", "bz2", "tbz", "xz", "txz", "zst", "7z", "rar", "deb", "rpm", "iso", "jar", "apk", "dmg"]
}

fn archive_extensions_list() -> (t: Vec<&'static str>)
    ensures
        t@ == archive_extensions(),
{
    reveal(archive_extensions);
    let mut t: Vec<&'static str> = Vec::new();
    t.push("zip");
    t.push("tar");
    t.push("gz");
    t.push("tgz");
    t.push("bz2");
    t.push("tbz");
    t.push("xz");
    t.push("txz");
    t.push("zst");
    t.push("7z");
    t.push("rar");
    t.push("deb");
    t.push("rpm");
    t.push("iso");
    t.push("jar");
    t.push("apk");
    t.push("dmg");
    assert(t@ =~= archive_extensions());
    t
}

/// Word-processor documents.
#[verifier::opaque]
pub open spec fn document_extensions() -> Seq<&'static str> {
    seq!["doc", "docx", "odt", "rtf", "epub", "pages"]
}

fn document_extensions_list() -> (t: Vec<&'static str>)
    ensures
        t@ == document_extensions(),
{
    reveal(document_extensions);
    let mut t: Vec<&'static str> = Vec::new();
    t.push("doc");
    t.push("docx");
    t.push("odt");
    t.push("rtf");
    t.push("epub");
    t.push("pages");
    assert(t@ =~= document_extensions());
    t
}

/// Spreadsheets.
#[verifier::opaque]
pub open spec fn spreadsheet_extensions() -> Seq<&'static str> {
    seq!["xls", "xlsx", "ods", "numbers"]
}

fn spreadsheet_extensions_list() -> (t: Vec<&'static str>)
    ensures
        t@ == spreadsheet_extensions(),
{
    reveal(spreadsheet_extensions);
    let mut t: Vec<&'static str> = Vec::new();
    t.push("xls");
    t.push("xlsx");
    t.push("ods");
    t.push("numbers");
    assert(t@ =~= spreadsheet_extensions());
    t
}

/// Presentations.
#[verifier::opaque]
pub open spec fn slide_extensions() -> Seq<&'static str> {
    seq!["ppt", "pptx", "odp", "key"]
}

fn slide_extensions_list() -> (t: Vec<&'static str>)
    ensures
        t@ == slide_extensions(),
{
    reveal(slide_extensions);
    let mut t: Vec<&'static str> = Vec::new();
    t.push("ppt");
    t.push("pptx");
    t.push("odp");
    t.push("key");
    assert(t@ =~= slide_extensions());
    t
}

/// A file's family, from its name alone.
pub open spec fn family_of_path(path: Seq<char>) -> Family {
    match extension_spec(path) {
        None => Family::Other,
        Some(e) => if listed(image_extensions(), e) {
            Family::Image
        } else if listed(video_extensions(), e) {
            Family::Video
        } else if listed(audio_extensions(), e) {
            Family::Audio
        } else if listed(archive_extensions(), e) {
            Family::Archive
        } else if e == "pdf"@ {
            Family::Pdf
        } else if listed(document_extensions(), e) {
            Family::Document
        } else if listed(spreadsheet_extensions(), e) {
            Family::Spreadsheet
        } else if listed(slide_extensions(), e) {
            Family::Slides
        } else if language_in(languages(), e) is Some {
            Family::Code
        } else if listed(plain_text_extensions(), e) {
            Family::Text
        } else {
            Family::Other
        },
    }
}

pub open spec fn glyph_of(f: Family) -> &'static str {
    match f {
        Family::Directory => "\u{f07b}",
        Family::Broken => "\u{f127}",
        Family::Image => "\u{f1c5}",
        Family::Video => "\u{f1c8}",
        Family::Audio => "\u{f1c7}",
        Family::Archive => "\u{f1c6}",
        Family::Code => "\u{f1c9}",
        Family::Text => "\u{f15c}",
        Family::Pdf => "\u{f1c1}",
        Family::Document => "\u{f1c2}",
        Family::Spreadsheet => "\u{f1c3}",
        Family::Slides => "\u{f1c4}",
        Family::Other => "\u{f15b}",
    }
}

impl Family {
    /// An entry's family: its kind first — a directory named `x.zip` is a
    /// directory — then its name.
    pub fn of(entry: &Entry) -> (f: Family)
        ensures
            f == match entry.kind {
                Kind::Directory => Family::Directory,
                Kind::Unresolved => Family::Broken,
                Kind::File => family_of_path(entry.path@),
            },
    {
        match entry.kind {
            Kind::Directory => Family::Directory,
            Kind::Unresolved => Family::Broken,
            Kind::File => Self::of_file(entry.path.as_str()),
        }
    }

    /// A file's family, from its name alone.
    pub fn of_file(path: &str) -> (f: Family)
        ensures
            f == family_of_path(path@),
    {
        let e = match extension_of(path) {
            Some(e) => e,
            None => return Family::Other,
        };
        let e = e.as_str();
        if is_listed(&image_extensions_list(), e) {
            Family::Image
        } else if is_listed(&video_extensions_list(), e) {
            Family::Video
        } else if is_listed(&audio_extensions_list(), e) {
            Family::Audio
        } else if is_listed(&archive_extensions_list(), e) {
            Family::Archive
        } else if crate::text::str_eq(e, "pdf") {
            Family::Pdf
        } else if is_listed(&document_extensions_list(), e) {
            Family::Document
        } else if is_listed(&spreadsheet_extensions_list(), e) {
            Family::Spreadsheet
        } else if is_listed(&slide_extensions_list(), e) {
            Family::Slides
        } else if language_for(e).is_some() {
            Family::Code
        } else if is_listed(&plain_text_extensions_list(), e) {
            Family::Text
        } else {
            Family::Other
        }
    }

    /// The Nerd Font glyph that stands for this family.
    pub fn glyph(self) -> (g: &'static str)
        ensures
            g == glyph_of(self),
    {
        match self {
            Family::Directory => "\u{f07b}",
            Family::Broken => "\u{f127}",
            Family::Image => "\u{f1c5}",
            Family::Video => "\u{f1c8}",
            Family::Audio => "\u{f1c7}",
            Family::Archive => "\u{f1c6}",
            Family::Code => "\u{f1c9}",
            Family::Text => "\u{f15c}",
            Family::Pdf => "\u{f1c1}",
            Family::Document => "\u{f1c2}",
            Family::Spreadsheet => "\u{f1c3}",
            Family::Slides => "\u{f1c4}",
            Family::Other => "\u{f15b}",
        }
    }
}

/// The named colours of Omarchy's palette a family can wear.
#[derive(Debug, Clone, Copy, PartialEq, Eq, Structural)]
pub enum Hue {
    Blue,
    Red,
    Magenta,
    Cyan,
    Yellow,
    Green,
    Orange,
}

impl Family {
    /// The palette colour this family is tinted with, if any. Plain text and
    /// unknown files stay untinted, so the hues mark what is distinctive
    /// rather than painting every row; one hue per idea, not per family —
    /// pictures and video share magenta, the office trio shares orange.
    pub fn hue(self) -> (r: Option<Hue>)
        ensures
            r == match self {
                Family::Directory => Some(Hue::Blue),
                Family::Broken => Some(Hue::Red),
                Family::Image | Family::Video => Some(Hue::Magenta),
                Family::Audio => Some(Hue::Cyan),
                Family::Archive => Some(Hue::Yellow),
                Family::Code => Some(Hue::Green),
                Family::Pdf | Family::Document | Family::Spreadsheet | Family::Slides => Some(Hue::Orange),
                Family::Text | Family::Other => None,
            },
    {
        match self {
            Family::Directory => Some(Hue::Blue),
            Family::Broken => Some(Hue::Red),
            Family::Image | Family::Video => Some(Hue::Magenta),
            Family::Audio => Some(Hue::Cyan),
            Family::Archive => Some(Hue::Yellow),
            Family::Code => Some(Hue::Green),
            Family::Pdf | Family::Document | Family::Spreadsheet | Family::Slides => Some(Hue::Orange),
            Family::Text | Family::Other => None,
        }
    }
}

/// Every sound extension is audio, in any ASCII case — the extension a
/// path is classified by is folded to lower case — and nothing earlier in
/// the rules (pictures, video) claims it.
pub proof fn lemma_sound_is_audio(path: Seq<char>)
    requires
        extension_spec(path) matches Some(e) && (e == "mp3"@ || e == "flac"@ || e == "ogg"@ || e == "oga"@ || e == "opus"@
            || e == "wav"@ || e == "aac"@ || e == "m4a"@ || e == "wma"@ || e == "aiff"@ || e == "alac"@),
    ensures
        family_of_path(path) == Family::Audio,
{
    let e = extension_spec(path)->0;
    reveal(image_extensions);
    reveal(video_extensions);
    reveal(audio_extensions);
    reveal_strlit("mp3");
    reveal_strlit("flac");
    reveal_strlit("ogg");
    reveal_strlit("oga");
    reveal_strlit("opus");
    reveal_strlit("wav");
    reveal_strlit("aac");
    reveal_strlit("m4a");
    reveal_strlit("wma");
    reveal_strlit("aiff");
    reveal_strlit("alac");
    reveal_strlit("png");
    reveal_strlit("jpg");
    reveal_strlit("jpeg");
    reveal_strlit("gif");
    reveal_strlit("webp");
    reveal_strlit("bmp");
    reveal_strlit("ico");
    reveal_strlit("tiff");
    reveal_strlit("tif");
    reveal_strlit("avif");
    reveal_strlit("qoi");
    reveal_strlit("hdr");
    reveal_strlit("exr");
    reveal_strlit("mp4");
    reveal_strlit("mkv");
    reveal_strlit("webm");
    reveal_strlit("mov");
    reveal_strlit("avi");
    reveal_strlit("m4v");
    reveal_strlit("wmv");
    reveal_strlit("flv");
    reveal_strlit("mpg");
    reveal_strlit("mpeg");
    reveal_strlit("ogv");
    assert("mp3"@.len() == 3 && "mp3"@[0] == 'm' && "mp3"@[1] == 'p' && "mp3"@[2] == '3');
    assert("flac"@.len() == 4 && "flac"@[0] == 'f' && "flac"@[1] == 'l' && "flac"@[2] == 'a' && "flac"@[3] == 'c');
    assert("ogg"@.len() == 3 && "ogg"@[0] == 'o' && "ogg"@[1] == 'g' && "ogg"@[2] == 'g');
    assert("oga"@.len() == 3 && "oga"@[0] == 'o' && "oga"@[1] == 'g' && "oga"@[2] == 'a');
    assert("opus"@.len() == 4 && "opus"@[0] == 'o' && "opus"@[1] == 'p' && "opus"@[2] == 'u' && "opus"@[3] == 's');
    assert("wav"@.len() == 3 && "wav"@[0] == 'w' && "wav"@[1] == 'a' && "wav"@[2] == 'v');
    assert("aac"@.len() == 3 && "aac"@[0] == 'a' && "aac"@[1] == 'a' && "aac"@[2] == 'c');
    assert("m4a"@.len() == 3 && "m4a"@[0] == 'm' && "m4a"@[1] == '4' && "m4a"@[2] == 'a');
    assert("wma"@.len() == 3 && "wma"@[0] == 'w' && "wma"@[1] == 'm' && "wma"@[2] == 'a');
    assert("aiff"@.len() == 4 && "aiff"@[0] == 'a' && "aiff"@[1] == 'i' && "aiff"@[2] == 'f' && "aiff"@[3] == 'f');
    assert("alac"@.len() == 4 && "alac"@[0] == 'a' && "alac"@[1] == 'l' && "alac"@[2] == 'a' && "alac"@[3] == 'c');
    assert("png"@.len() == 3 && "png"@[0] == 'p' && "png"@[1] == 'n' && "png"@[2] == 'g');
    assert("jpg"@.len() == 3 && "jpg"@[0] == 'j' && "jpg"@[1] == 'p' && "jpg"@[2] == 'g');
    assert("jpeg"@.len() == 4 && "jpeg"@[0] == 'j' && "jpeg"@[1] == 'p' && "jpeg"@[2] == 'e' && "jpeg"@[3] == 'g');
    assert("gif"@.len() == 3 && "gif"@[0] == 'g' && "gif"@[1] == 'i' && "gif"@[2] == 'f');
    assert("webp"@.len() == 4 && "webp"@[0] == 'w' && "webp"@[1] == 'e' && "webp"@[2] == 'b' && "webp"@[3] == 'p');
    assert("bmp"@.len() == 3 && "bmp"@[0] == 'b' && "bmp"@[1] == 'm' && "bmp"@[2] == 'p');
    assert("ico"@.len() == 3 && "ico"@[0] == 'i' && "ico"@[1] == 'c' && "ico"@[2] == 'o');
    assert("tiff"@.len() == 4 && "tiff"@[0] == 't' && "tiff"@[1] == 'i' && "tiff"@[2] == 'f' && "tiff"@[3] == 'f');
    assert("tif"@.len() == 3 && "tif"@[0] == 't' && "tif"@[1] == 'i' && "tif"@[2] == 'f');
    assert("avif"@.len() == 4 && "avif"@[0] == 'a' && "avif"@[1] == 'v' && "avif"@[2] == 'i' && "avif"@[3] == 'f');
    assert("qoi"@.len() == 3 && "qoi"@[0] == 'q' && "qoi"@[1] == 'o' && "qoi"@[2] == 'i');
    assert("hdr"@.len() == 3 && "hdr"@[0] == 'h' && "hdr"@[1] == 'd' && "hdr"@[2] == 'r');
    assert("exr"@.len() == 3 && "exr"@[0] == 'e' && "exr"@[1] == 'x' && "exr"@[2] == 'r');
    assert("mp4"@.len() == 3 && "mp4"@[0] == 'm' && "mp4"@[1] == 'p' && "mp4"@[2] == '4');
    assert("mkv"@.len() == 3 && "mkv"@[0] == 'm' && "mkv"@[1] == 'k' && "mkv"@[2] == 'v');
    assert("webm"@.len() == 4 && "webm"@[0] == 'w' && "webm"@[1] == 'e' && "webm"@[2] == 'b' && "webm"@[3] == 'm');
    assert("mov"@.len() == 3 && "mov"@[0] == 'm' && "mov"@[1] == 'o' && "mov"@[2] == 'v');
    assert("avi"@.len() == 3 && "avi"@[0] == 'a' && "avi"@[1] == 'v' && "avi"@[2] == 'i');
    assert("m4v"@.len() == 3 && "m4v"@[0] == 'm' && "m4v"@[1] == '4' && "m4v"@[2] == 'v');
    assert("wmv"@.len() == 3 && "wmv"@[0] == 'w' && "wmv"@[1] == 'm' && "wmv"@[2] == 'v');
    assert("flv"@.len() == 3 && "flv"@[0] == 'f' && "flv"@[1] == 'l' && "flv"@[2] == 'v');
    assert("mpg"@.len() == 3 && "mpg"@[0] == 'm' && "mpg"@[1] == 'p' && "mpg"@[2] == 'g');
    assert("mpeg"@.len() == 4 && "mpeg"@[0] == 'm' && "mpeg"@[1] == 'p' && "mpeg"@[2] == 'e' && "mpeg"@[3] == 'g');
    assert("ogv"@.len() == 3 && "ogv"@[0] == 'o' && "ogv"@[1] == 'g' && "ogv"@[2] == 'v');
    let img = image_extensions();
    let vid = video_extensions();
    let aud = audio_extensions();
    assert forall|i: int| 0 <= i < img.len() implies (#[trigger] img[i])@ != e by {
        assert(e.len() >= 3);
        if e.len() > 3 { assert(e[3] == e[3]); }
        assert(e[0] == e[0] && e[1] == e[1] && e[2] == e[2]);
    }
    assert forall|i: int| 0 <= i < vid.len() implies (#[trigger] vid[i])@ != e by {
        assert(e.len() >= 3);
        if e.len() > 3 { assert(e[3] == e[3]); }
        assert(e[0] == e[0] && e[1] == e[1] && e[2] == e[2]);
    }
    if e == "mp3"@ { assert(aud[0]@ == e); }
    else if e == "flac"@ { assert(aud[1]@ == e); }
    else if e == "ogg"@ { assert(aud[2]@ == e); }
    else if e == "oga"@ { assert(aud[3]@ == e); }
    else if e == "opus"@ { assert(aud[4]@ == e); }
    else if e == "wav"@ { assert(aud[5]@ == e); }
    else if e == "aac"@ { assert(aud[6]@ == e); }
    else if e == "m4a"@ { assert(aud[7]@ == e); }
    else if e == "wma"@ { assert(aud[8]@ == e); }
    else if e == "aiff"@ { assert(aud[9]@ == e); }
    else { assert(aud[10]@ == e); }
}

} // verus!
