use omafiles::imageops::{is_png, png_args, png_failure, png_outcome, probe_dimensions, reads_verbatim, variants};

#[test]
fn variants_offer_only_smaller_widths_largest_first() {
    let v = variants(1600, 900);
    let widths: Vec<u32> = v.iter().map(|v| v.width).collect();
    assert_eq!(widths, vec![1600, 1280, 800, 400]);
    assert!(v[0].original);
    assert!(v.iter().skip(1).all(|v| !v.original));
    assert_eq!(v[1].height, 720);
    assert_eq!(v[2].height, 450);
    assert_eq!(v[3].height, 226);
}

#[test]
fn a_small_picture_has_only_itself() {
    assert_eq!(variants(320, 200).len(), 1);
    assert_eq!(variants(0, 0).len(), 1);
}

#[test]
fn a_very_flat_picture_still_gets_two_rows() {
    let v = variants(4000, 1);
    assert_eq!(v.len(), 5);
    assert!(v.iter().skip(1).all(|v| v.height == 2));
}

#[test]
fn extreme_sizes_do_not_overflow() {
    let v = variants(u32::MAX, u32::MAX);
    assert_eq!(v.len(), 5);
    assert!(v.iter().skip(1).all(|v| v.height % 2 == 0));
}

#[test]
fn a_png_at_its_own_size_is_taken_as_it_is() {
    let bytes = [0x89, b'P', b'N', b'G', 0x0d, 0x0a, 0x1a, 0x0a, 1, 2, 3];
    assert!(is_png(&bytes));
    assert!(reads_verbatim(None, &bytes));
    assert!(!reads_verbatim(Some(400), &bytes));
    assert!(!is_png(&bytes[..7]));
    assert!(!reads_verbatim(None, b"GIF89a\x00\x00"));
}

#[test]
fn ffprobe_output_gives_width_and_height() {
    assert_eq!(probe_dimensions(Some((true, "1920,1080\n".to_string()))), Some((1920, 1080)));
    assert_eq!(probe_dimensions(Some((true, " 64 , 32 ,\n".to_string()))), Some((64, 32)));
    assert_eq!(probe_dimensions(Some((true, "1920\n".to_string()))), None);
    assert_eq!(probe_dimensions(Some((true, "a,b".to_string()))), None);
    assert_eq!(probe_dimensions(Some((false, "1920,1080".to_string()))), None);
    assert_eq!(probe_dimensions(None), None);
}

#[test]
fn ffmpeg_is_asked_for_one_png_frame() {
    let plain = png_args("/tmp/a.webp", None);
    assert_eq!(
        plain,
        vec!["-v", "error", "-i", "/tmp/a.webp", "-frames:v", "1", "-f", "image2pipe", "-vcodec", "png", "-"]
    );
    let scaled = png_args("/tmp/a.webp", Some(800));
    assert_eq!(
        scaled,
        vec![
            "-v", "error", "-i", "/tmp/a.webp", "-vf", "scale=800:-2", "-frames:v", "1", "-f", "image2pipe",
            "-vcodec", "png", "-"
        ]
    );
}

#[test]
fn a_failed_conversion_says_why() {
    assert_eq!(png_failure("noise\n  bad input  \n"), "could not convert to PNG: bad input");
    assert_eq!(png_failure(""), "could not convert to PNG: ffmpeg produced nothing");
    assert_eq!(png_outcome(true, vec![1, 2], "x"), Ok(vec![1, 2]));
    assert_eq!(png_outcome(true, vec![], ""), Err("could not convert to PNG: ffmpeg produced nothing".to_string()));
    assert_eq!(png_outcome(false, vec![7], "oops"), Err("could not convert to PNG: oops".to_string()));
}
