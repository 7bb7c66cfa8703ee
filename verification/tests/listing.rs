use image_slider::catalog::{is_image_name, select_images};
use image_slider::ffmpeg::{
    boomerang_args, compress_args, encoder_list_args, encoder_name, lists_videotoolbox, size_text,
    slider_args,
};
use image_slider::geometry::Size;
use image_slider::text::{decimal_text, progress_line, signed_decimal_text};

fn bytes(text: &str) -> Vec<u8> {
    text.as_bytes().to_vec()
}

fn select(names: &[&str]) -> Vec<String> {
    let listing = names.iter().map(|name| Some(bytes(name))).collect();
    select_images(listing).into_iter().map(|name| String::from_utf8(name).unwrap()).collect()
}

#[test]
fn picture_files_are_known_by_extension() {
    for name in ["a.jpg", "a.jpeg", "a.png", "a.bmp", "a.tiff", "a.tif", "a.webp", "A.JPG", "b.PnG"] {
        assert!(is_image_name(&bytes(name)), "{}", name);
    }
    for name in ["a.gif", "a", ".jpg", "", ".", "..", "jpg", "a.jpg.txt", "a.jpgx", "a.jp", "a."] {
        assert!(!is_image_name(&bytes(name)), "{}", name);
    }
    assert!(is_image_name(&bytes("..jpg")));
    assert!(is_image_name(&bytes(".hidden.png")));
    assert!(is_image_name(&vec![0xff, 0xfe, 46, 112, 110, 103]));
    assert!(!is_image_name(&vec![97, 46, 112, 110, 0xff]));
}

#[test]
fn extensions_agree_with_the_path_type() {
    let names = [
        "a.jpg", "a.JPEG", ".jpg", "..jpg", "a..png", "a.", "a", ".a.bmp", "x.y.Tiff", "ä.tif",
        "a.WEBP", "a.webp ", "a .png", "a.p\u{130}ng", "a.t\u{130}f",
    ];
    for name in names {
        let expected = std::path::Path::new(name)
            .extension()
            .and_then(|e| e.to_str())
            .map(|e| e.to_lowercase())
            .is_some_and(|e| {
                matches!(
                    e.as_str(),
                    "jpg" | "jpeg" | "png" | "bmp" | "tiff" | "tif" | "webp"
                )
            });
        assert_eq!(is_image_name(&bytes(name)), expected, "{}", name);
    }
}

#[test]
fn no_other_character_becomes_a_letter_of_an_extension() {
    for c in '\u{80}'..=char::MAX {
        let small: String = c.to_lowercase().collect();
        assert!(!small.is_ascii() || small == "k", "{:?}", c);
    }
}

#[test]
fn pictures_are_sorted_by_name() {
    assert_eq!(
        select(&["b.png", "notes.txt", "a.jpg", "B.png", "10.png", "9.png", "a.jpeg"]),
        vec!["10.png", "9.png", "B.png", "a.jpeg", "a.jpg", "b.png"]
    );
    assert_eq!(select(&["c.txt"]), Vec::<String>::new());
    assert_eq!(select(&[]), Vec::<String>::new());
}

#[test]
fn entries_that_cannot_be_read_are_left_out() {
    let listing = vec![None, Some(bytes("b.png")), None, Some(bytes("a.png"))];
    assert_eq!(select_images(listing), vec![bytes("a.png"), bytes("b.png")]);
}

#[test]
fn the_order_of_a_listing_does_not_matter() {
    let mut names = Vec::new();
    for i in 0..200u32 {
        names.push(format!("img{}.png", i.wrapping_mul(2_654_435_761) % 1000));
        names.push(format!("img{}.txt", i));
    }
    let forward: Vec<Option<Vec<u8>>> = names.iter().map(|n| Some(bytes(n))).collect();
    let backward: Vec<Option<Vec<u8>>> = names.iter().rev().map(|n| Some(bytes(n))).collect();
    let mut expected: Vec<Vec<u8>> =
        names.iter().filter(|n| n.ends_with("png")).map(|n| bytes(n)).collect();
    expected.sort();
    assert_eq!(select_images(forward), expected);
    assert_eq!(select_images(backward), expected);
}

#[test]
fn paths_in_one_directory_sort_like_their_names() {
    let names = ["a.png", "a b.png", "a-b.png", "A.png", "a.b.png", "ä.png", "z.png"];
    let mut paths: Vec<std::path::PathBuf> =
        names.iter().map(|n| std::path::Path::new("images").join(n)).collect();
    paths.sort();
    let sorted: Vec<String> =
        paths.iter().map(|p| p.file_name().unwrap().to_str().unwrap().to_string()).collect();
    assert_eq!(select(&names), sorted);
}

#[test]
fn numbers_are_written_in_decimal() {
    for n in [0, 1, 9, 10, 42, 100, 999, 1000, 1_234_567_890, u64::MAX] {
        assert_eq!(decimal_text(n), n.to_string());
    }
    for i in [0, 7, -7, 2160, -1, i32::MAX, i32::MIN] {
        assert_eq!(signed_decimal_text(i), i.to_string());
    }
}

#[test]
fn progress_is_reported_in_columns() {
    assert_eq!(progress_line(0, 20, "a.png"), "[ 1/20] a.png");
    assert_eq!(progress_line(19, 20, "b.png"), "[20/20] b.png");
    assert_eq!(progress_line(0, 1, "é.png"), "[1/1] é.png");
    assert_eq!(progress_line(8, 1234, "x"), "[   9/1234] x");
    for total in [1usize, 9, 10, 11, 100, 101] {
        for i in 0..total {
            let width = total.to_string().len();
            assert_eq!(
                progress_line(i, total, "name"),
                format!("[{:>width$}/{}] {}", i + 1, total, "name")
            );
        }
    }
}

#[test]
fn slider_is_encoded_by_hardware_where_it_can_be() {
    let size = Size { width: 1214, height: 2160 };
    assert_eq!(size_text(size), "1214x2160");
    assert_eq!(
        slider_args(size, "30", "bw.mp4", true),
        vec![
            "-y", "-f", "rawvideo", "-pixel_format", "bgr24", "-video_size", "1214x2160",
            "-framerate", "30", "-i", "pipe:0", "-vcodec", "h264_videotoolbox", "-q:v", "85",
            "-pix_fmt", "yuv420p", "bw.mp4",
        ]
    );
    assert_eq!(
        slider_args(size, "29.97", "bw.mp4", false),
        vec![
            "-y", "-f", "rawvideo", "-pixel_format", "bgr24", "-video_size", "1214x2160",
            "-framerate", "29.97", "-i", "pipe:0", "-vcodec", "libx264", "-crf", "18", "-preset",
            "medium", "-pix_fmt", "yuv420p", "bw.mp4",
        ]
    );
    assert_eq!(encoder_name(true), "h264_videotoolbox (HW)");
    assert_eq!(encoder_name(false), "libx264 (SW)");
}

#[test]
fn boomerang_states_its_colours() {
    let size = Size { width: 2, height: -1 };
    assert_eq!(
        boomerang_args(size, "30", "b.mp4", false),
        vec![
            "-y", "-f", "rawvideo", "-pixel_format", "bgr24", "-video_size", "2x-1", "-framerate",
            "30", "-i", "pipe:0", "-vcodec", "libx264", "-crf", "18", "-preset", "medium",
            "-pix_fmt", "yuv420p", "-colorspace", "bt709", "-color_primaries", "bt709",
            "-color_trc", "bt709", "-color_range", "tv", "b.mp4",
        ]
    );
    let hardware = boomerang_args(size, "30", "b.mp4", true);
    assert_eq!(hardware[11..15], ["-vcodec", "h264_videotoolbox", "-q:v", "85"]);
    assert_eq!(hardware.len(), 26);
}

#[test]
fn compression_limits_the_height() {
    assert_eq!(
        compress_args("output.mp4", "output_2160p.mp4"),
        vec![
            "-y", "-i", "output.mp4", "-vf", "scale=-2:min(ih\\,2160)", "-vcodec", "libx264",
            "-crf", "18", "-preset", "slow", "-pix_fmt", "yuv420p", "-acodec", "copy",
            "output_2160p.mp4",
        ]
    );
    assert_eq!(encoder_list_args(), vec!["-hide_banner", "-encoders"]);
}

#[test]
fn videotoolbox_is_found_in_the_list() {
    let list = " V....D h264_videotoolbox    VideoToolbox H.264 Encoder (codec h264)\n";
    assert!(lists_videotoolbox(&Some(bytes(list))));
    assert!(lists_videotoolbox(&Some(bytes("h264_videotoolbox"))));
    assert!(!lists_videotoolbox(&Some(bytes("h264_videotoolbo"))));
    assert!(!lists_videotoolbox(&Some(bytes(" V....D libx264 h264_ videotoolbox\n"))));
    assert!(!lists_videotoolbox(&Some(Vec::new())));
    assert!(!lists_videotoolbox(&None));
}

#[test]
fn stray_bytes_do_not_hide_videotoolbox() {
    let word = bytes("h264_videotoolbox");
    for stray in [vec![0xffu8], vec![0xe2, 0x82], vec![0xf0, 0x9f, 0x98], vec![0xc3, 0xa9]] {
        for cut in [0, 4, word.len()] {
            let mut text = word[..cut].to_vec();
            text.extend(&stray);
            text.extend(&word[cut..]);
            let expected = String::from_utf8_lossy(&text).contains("h264_videotoolbox");
            assert_eq!(lists_videotoolbox(&Some(text)), expected);
        }
    }
}
