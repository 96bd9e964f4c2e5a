//! Which PNG copies of a picture are worth offering: the original size, and
//! each of a few standard widths that is actually smaller. The scaling
//! itself is ffmpeg's, run by the application.

use vstd::prelude::*;
use crate::diff::{parse_u32, parse_u32_at, trim_bounds, trim_ws};
use crate::network::first_of;
use crate::numfmt::{decimal, decimal_string};
use crate::split::{lines_of, split_lines, views};
use crate::text::{chars_of, concat, concat3, string_of};

verus! {

/// One way to copy a picture: as a PNG, at this many pixels across.
#[derive(Debug, Clone, Copy, PartialEq, Eq, Structural)]
pub struct Variant {
    pub width: u32,
    pub height: u32,
    /// The original, byte for byte, when the file is already a PNG; else a
    /// re-encode at full size.
    pub original: bool,
}

/// Widths a copy is offered at besides the original, largest first.
pub open spec fn scaled_widths() -> Seq<u32> {
    seq![1920u32, 1280, 800, 400]
}

/// The height at width `w`: the ratio kept, rounded to nearest, at least
/// two, and even — what ffmpeg's `-2` gives.
pub open spec fn scaled_height(width: int, height: int, w: int) -> int {
    let raw = (height * w + width / 2) / width;
    let h = if raw < 2 { 2 } else { raw };
    h + h % 2
}

/// The variants for a `width × height` picture, largest first.
pub open spec fn variants_of(width: u32, height: u32) -> Seq<Variant> {
    let first = Variant { width, height, original: true };
    if width == 0 || height == 0 {
        seq![first]
    } else {
        seq![first] + scaled_from(width, height, 0)
    }
}

pub open spec fn scaled_from(width: u32, height: u32, k: int) -> Seq<Variant>
    decreases 4 - k,
{
    if k < 0 || k >= 4 {
        Seq::empty()
    } else {
        let w = scaled_widths()[k];
        let rest = scaled_from(width, height, k + 1);
        if (w as int) < (width as int) {
            seq![Variant { width: w, height: scaled_height(width as int, height as int, w as int) as u32, original: false }] + rest
        } else {
            rest
        }
    }
}

fn scaled(width: u32, height: u32, w: u32) -> (h: u32)
    requires
        0 < width,
        w < width,
    ensures
        h as int == scaled_height(width as int, height as int, w as int),
{
    assert((height as int) * (w as int) <= 18446744065119617025) by (nonlinear_arith)
        requires
            height <= 4294967295,
            w <= 4294967295,
    {
    }
    let hw: u64 = (height as u64) * (w as u64);
    let num: u64 = hw + (width as u64) / 2;
    let raw: u64 = num / (width as u64);
    assert(raw < height as u64 || (raw as int) * 2 <= width as int) by (nonlinear_arith)
        requires
            hw as int == (height as int) * (w as int),
            num as int == hw as int + (width as int) / 2,
            raw as int == (num as int) / (width as int),
            w < width,
            width > 0,
    {
        assert((raw as int) * (width as int) <= num);
        assert(hw <= (height as int) * (width as int) - (height as int));
        if raw >= height {
            assert((height as int) * (width as int) <= (raw as int) * (width as int));
        }
    }
    let h: u64 = if raw < 2 { 2 } else { raw };
    let even: u64 = h + h % 2;
    (even as u32)
}

/// The PNG variants worth offering for a `width × height` picture, largest
/// first: the original size, then each scaled width that is smaller.
pub fn variants(width: u32, height: u32) -> (r: Vec<Variant>)
    ensures
        r@ == variants_of(width, height),
{
    let mut out: Vec<Variant> = Vec::new();
    out.push(Variant { width, height, original: true });
    if width == 0 || height == 0 {
        assert(out@ =~= variants_of(width, height));
        return out;
    }
    let widths: [u32; 4] = [1920, 1280, 800, 400];
    assert(widths@ =~= scaled_widths());
    let mut k: usize = 4;
    let mut tail: Vec<Variant> = Vec::new();
    while k > 0
        invariant
            k <= 4,
            widths@ == scaled_widths(),
            width > 0,
            tail@ == scaled_from(width, height, k as int),
        decreases k,
    {
        k -= 1;
        let w = widths[k];
        if w < width {
            let v = Variant { width: w, height: scaled(width, height, w), original: false };
            tail.insert(0, v);
            assert(tail@ =~= seq![v] + scaled_from(width, height, k + 1));
        }
    }
    let mut i: usize = 0;
    let ghost first = out@;
    while i < tail.len()
        invariant
            i <= tail@.len(),
            out@ == first + tail@.take(i as int),
        decreases tail@.len() - i,
    {
        out.push(tail[i]);
        i += 1;
        assert(out@ =~= first + tail@.take(i as int));
    }
    assert(tail@.take(tail@.len() as int) =~= tail@);
    out
}

proof fn lemma_scaled_height_fits(width: u32, height: u32, w: u32)
    requires
        0 < width,
        w < width,
    ensures
        2 <= scaled_height(width as int, height as int, w as int) <= u32::MAX,
        scaled_height(width as int, height as int, w as int) % 2 == 0,
{
    let hw = (height as int) * (w as int);
    let num = hw + (width as int) / 2;
    let raw = num / (width as int);
    assert(raw < height as int || raw * 2 <= width as int) by (nonlinear_arith)
        requires
            hw == (height as int) * (w as int),
            num == hw + (width as int) / 2,
            raw == num / (width as int),
            w < width,
            width > 0,
    {
        assert(raw * (width as int) <= num);
        assert(hw <= (height as int) * (width as int) - (height as int));
        if raw >= height {
            assert((height as int) * (width as int) <= raw * (width as int));
        }
    }
}

proof fn lemma_scaled_from_shape(width: u32, height: u32, k: int)
    requires
        0 <= k <= 4,
    ensures
        forall|i: int| 0 <= i < scaled_from(width, height, k).len() ==> {
            let v = #[trigger] scaled_from(width, height, k)[i];
            &&& !v.original
            &&& v.width < width
            &&& v.height % 2 == 0
            &&& v.height >= 2
        },
        forall|i: int| 0 <= i < scaled_from(width, height, k).len() - 1 ==> (#[trigger] scaled_from(width, height, k)[i]).width > scaled_from(width, height, k)[i + 1].width,
        forall|i: int| 0 <= i < scaled_from(width, height, k).len() ==> exists|j: int| k <= j < 4 && (#[trigger] scaled_from(width, height, k)[i]).width == scaled_widths()[j],
    decreases 4 - k,
{
    if k < 4 {
        lemma_scaled_from_shape(width, height, k + 1);
        let rest = scaled_from(width, height, k + 1);
        let w = scaled_widths()[k];
        if (w as int) < (width as int) {
            lemma_scaled_height_fits(width, height, w);
            let v = Variant { width: w, height: scaled_height(width as int, height as int, w as int) as u32, original: false };
            let all = seq![v] + rest;
            assert(scaled_from(width, height, k) == all);
            let h = scaled_height(width as int, height as int, w as int);
            assert(h % 2 == 0 && h >= 2);
            assert forall|i: int| 0 <= i < all.len() - 1 implies (#[trigger] all[i]).width > all[i + 1].width by {
                if i == 0 {
                    let j = choose|j: int| k + 1 <= j < 4 && rest[0].width == scaled_widths()[j];
                    assert(all[1] == rest[0]);
                } else {
                    assert(all[i] == rest[i - 1] && all[i + 1] == rest[i]);
                }
            }
            assert forall|i: int| 0 <= i < all.len() implies exists|j: int| k <= j < 4 && (#[trigger] all[i]).width == scaled_widths()[j] by {
                if i > 0 {
                    assert(all[i] == rest[i - 1]);
                    let j = choose|j: int| k + 1 <= j < 4 && rest[i - 1].width == scaled_widths()[j];
                }
            }
            assert forall|i: int| 0 <= i < all.len() implies {
                let v = #[trigger] all[i];
                &&& !v.original
                &&& v.width < width
                &&& v.height % 2 == 0
                &&& v.height >= 2
            } by {
                if i > 0 {
                    assert(all[i] == rest[i - 1]);
                }
            }
        }
    }
}

/// The original comes first; every other variant is a re-encode, narrower
/// than the picture, of even height of at least two, and the widths fall
/// strictly from one to the next.
pub proof fn lemma_variants_shape(width: u32, height: u32)
    ensures
        variants_of(width, height)[0] == (Variant { width, height, original: true }),
        forall|i: int| 0 < i < variants_of(width, height).len() ==> {
            let v = #[trigger] variants_of(width, height)[i];
            &&& !v.original
            &&& v.width < width
            &&& v.height % 2 == 0
            &&& v.height >= 2
        },
        forall|i: int| 0 <= i < variants_of(width, height).len() - 1 ==> (#[trigger] variants_of(width, height)[i]).width > variants_of(width, height)[i + 1].width,
{
    lemma_scaled_from_shape(width, height, 0);
    let vs = variants_of(width, height);
    if width != 0 && height != 0 {
        let rest = scaled_from(width, height, 0);
        assert forall|i: int| 0 < i < vs.len() implies {
            let v = #[trigger] vs[i];
            &&& !v.original
            &&& v.width < width
            &&& v.height % 2 == 0
            &&& v.height >= 2
        } by {
            assert(vs[i] == rest[i - 1]);
        }
        assert forall|i: int| 0 <= i < vs.len() - 1 implies (#[trigger] vs[i]).width > vs[i + 1].width by {
            if i == 0 {
                assert(vs[1] == rest[0]);
            } else {
                assert(vs[i] == rest[i - 1] && vs[i + 1] == rest[i]);
            }
        }
    }
}

/// The width and height `ffprobe -of csv=p=0` printed: `w,h`, each part
/// trimmed; nothing when it failed or printed something else.
pub open spec fn probed(text: Seq<char>) -> Option<(int, int)> {
    let t = trim_ws(text);
    let i = first_of(t, ',');
    let first = if i >= 0 { t.take(i) } else { t };
    let rest = if i >= 0 { t.skip(i + 1) } else { Seq::empty() };
    let j = first_of(rest, ',');
    let second = if j >= 0 { rest.take(j) } else { rest };
    if i < 0 {
        None
    } else {
        match (parse_u32(trim_ws(first)), parse_u32(trim_ws(second))) {
            (Some(w), Some(h)) => Some((w, h)),
            _ => None,
        }
    }
}

/// Pixel dimensions from what `ffprobe` printed (`None` when it could not
/// run or failed): the answer for the formats whose headers the preview
/// does not read.
pub fn probe_dimensions(output: Option<(bool, String)>) -> (r: Option<(u32, u32)>)
    ensures
        match output {
            Some((true, text)) => match r {
                Some((w, h)) => probed(text@) == Some((w as int, h as int)),
                None => probed(text@) is None,
            },
            _ => r is None,
        },
{
    let text = match output {
        Some((true, text)) => text,
        _ => return None,
    };
    let cs = chars_of(text.as_str());
    assert(cs@.subrange(0, cs@.len() as int) =~= cs@);
    let (a, b) = trim_bounds(&cs, 0, cs.len());
    let ghost t = cs@.subrange(a as int, b as int);
    let mut i = a;
    while i < b && cs[i] != ','
        invariant
            a <= i <= b <= cs@.len(),
            t == cs@.subrange(a as int, b as int),
            forall|k: int| a <= k < i ==> cs@[k] != ',',
        decreases b - i,
    {
        i += 1;
    }
    proof {
        lemma_first_of_at(t, ',', i - a);
        assert forall|k: int| 0 <= k < i - a implies t[k] != ',' by {
            assert(t[k] == cs@[a + k]);
        }
        if i < b {
            assert(t[i - a] == cs@[i as int]);
        }
        lemma_first_of_at(t, ',', i - a);
    }
    if i == b {
        return None;
    }
    let mut j = i + 1;
    while j < b && cs[j] != ','
        invariant
            i + 1 <= j <= b <= cs@.len(),
            forall|k: int| i + 1 <= k < j ==> cs@[k] != ',',
        decreases b - j,
    {
        j += 1;
    }
    proof {
        let rest = t.skip(i - a + 1);
        assert(rest =~= cs@.subrange(i + 1, b as int));
        assert forall|k: int| 0 <= k < j - i - 1 implies rest[k] != ',' by {
            assert(rest[k] == cs@[i + 1 + k]);
        }
        if j < b {
            assert(rest[j - i - 1] == cs@[j as int]);
        }
        lemma_first_of_at(rest, ',', j - i - 1);
        if j < b {
            assert(rest.take(j - i - 1) =~= cs@.subrange(i + 1, j as int));
        } else {
            assert(rest =~= cs@.subrange(i + 1, j as int));
        }
        assert(t.take(i - a) =~= cs@.subrange(a as int, i as int));
    }
    let (wa, wb) = trim_bounds(&cs, a, i);
    let (ha, hb) = trim_bounds(&cs, i + 1, j);
    match (parse_u32_at(&cs, wa, wb), parse_u32_at(&cs, ha, hb)) {
        (Some(w), Some(h)) => Some((w, h)),
        _ => None,
    }
}

proof fn lemma_first_of_at(s: Seq<char>, c: char, k: int)
    requires
        0 <= k <= s.len(),
        forall|j: int| 0 <= j < k ==> s[j] != c,
        k < s.len() ==> s[k] == c,
    ensures
        first_of(s, c) == (if k < s.len() { k } else { -1 }),
    decreases k,
{
    if k > 0 {
        lemma_first_of_at(s.skip(1), c, k - 1);
    }
}

/// PNG's eight-byte signature opens `head`.
pub open spec fn is_png_head(head: Seq<u8>) -> bool {
    head.len() >= 8 && head[0] == 0x89 && head[1] == 0x50 && head[2] == 0x4e && head[3] == 0x47
        && head[4] == 0x0d && head[5] == 0x0a && head[6] == 0x1a && head[7] == 0x0a
}

/// Whether a file's first bytes are PNG's signature: a picture that is a
/// PNG already is copied byte for byte rather than re-encoded.
pub fn is_png(head: &[u8]) -> (r: bool)
    ensures
        r == is_png_head(head@),
{
    head.len() >= 8 && head[0] == 0x89 && head[1] == 0x50 && head[2] == 0x4e && head[3] == 0x47 && head[4] == 0x0d
        && head[5] == 0x0a && head[6] == 0x1a && head[7] == 0x0a
}

pub open spec fn strs(v: Seq<String>) -> Seq<Seq<char>> {
    Seq::new(v.len(), |i: int| v[i]@)
}

/// The arguments `ffmpeg` is run with to turn `path` into one PNG frame on
/// stdout, scaled to `width` across (height kept in ratio, even) when given.
pub fn png_args(path: &str, width: Option<u32>) -> (r: Vec<String>)
    ensures
        strs(r@) == seq!["-v"@, "error"@, "-i"@, path@] + match width {
            Some(w) => seq!["-vf"@, "scale="@ + decimal(w as nat) + ":-2"@],
            None => Seq::empty(),
        } + seq!["-frames:v"@, "1"@, "-f"@, "image2pipe"@, "-vcodec"@, "png"@, "-"@],
{
    let mut args: Vec<String> = Vec::new();
    args.push(String::from_str("-v"));
    args.push(String::from_str("error"));
    args.push(String::from_str("-i"));
    args.push(String::from_str(path));
    match width {
        Some(w) => {
            args.push(String::from_str("-vf"));
            let digits = decimal_string(w as u128);
            args.push(concat3("scale=", digits.as_str(), ":-2"));
        },
        None => {},
    }
    args.push(String::from_str("-frames:v"));
    args.push(String::from_str("1"));
    args.push(String::from_str("-f"));
    args.push(String::from_str("image2pipe"));
    args.push(String::from_str("-vcodec"));
    args.push(String::from_str("png"));
    args.push(String::from_str("-"));
    assert(strs(args@) =~= seq!["-v"@, "error"@, "-i"@, path@] + match width {
        Some(w) => seq!["-vf"@, "scale="@ + decimal(w as nat) + ":-2"@],
        None => Seq::empty(),
    } + seq!["-frames:v"@, "1"@, "-f"@, "image2pipe"@, "-vcodec"@, "png"@, "-"@]);
    args
}

/// Why a conversion to PNG failed: the last line `ffmpeg` wrote to stderr,
/// trimmed, or that it produced nothing.
pub fn png_failure(stderr: &str) -> (r: String)
    ensures
        r@ == "could not convert to PNG: "@ + (if lines_of(stderr@).len() == 0 { "ffmpeg produced nothing"@ } else { trim_ws(lines_of(stderr@).last()) }),
{
    let cs = chars_of(stderr);
    let ls = split_lines(&cs);
    let ghost lv = views(ls@);
    if ls.len() == 0 {
        return concat("could not convert to PNG: ", "ffmpeg produced nothing");
    }
    let last = &ls[ls.len() - 1];
    assert(last@.subrange(0, last@.len() as int) =~= last@);
    assert(lv.last() == last@);
    let (a, b) = trim_bounds(last, 0, last.len());
    let why = string_of(last, a, b);
    concat("could not convert to PNG: ", why.as_str())
}

/// Whether the picture is handed over as it lies on disk: asked for at its
/// own size (`width` is `None`) and already a PNG.
pub fn reads_verbatim(width: Option<u32>, head: &[u8]) -> (r: bool)
    ensures
        r == (width is None && is_png_head(head@)),
{
    width.is_none() && is_png(head)
}

/// What one `ffmpeg` run to PNG comes to: its stdout when it succeeded and
/// wrote something, else the reason `png_failure` gives from its stderr.
pub fn png_outcome(success: bool, stdout: Vec<u8>, stderr: &str) -> (r: Result<Vec<u8>, String>)
    ensures
        success && stdout@.len() > 0 ==> r == Ok::<Vec<u8>, String>(stdout),
        !(success && stdout@.len() > 0) ==> (r matches Err(why) && why@ == "could not convert to PNG: "@
            + (if lines_of(stderr@).len() == 0 { "ffmpeg produced nothing"@ } else { trim_ws(lines_of(stderr@).last()) })),
{
    if !success || stdout.len() == 0 {
        Err(png_failure(stderr))
    } else {
        Ok(stdout)
    }
}

} // verus!
