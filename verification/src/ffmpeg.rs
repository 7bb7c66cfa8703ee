//! What the ffmpeg program is asked for, and what its answers mean.
use vstd::prelude::*;
use vstd::string::StringExecFns;

use crate::geometry::Size;
use crate::text::{signed_decimal, signed_decimal_text};

verus! {

/// A list of arguments as texts.
pub open spec fn texts(args: Seq<String>) -> Seq<Seq<char>> {
    args.map_values(|arg: String| arg@)
}

fn push_text(args: &mut Vec<String>, arg: &str)
    ensures
        texts(final(args)@) == texts(old(args)@).push(arg@),
{
    args.push(arg.to_owned());
    assert(texts(args@) =~= texts(old(args)@).push(arg@));
}

/// A size as ffmpeg reads it.
pub open spec fn size_as_text(size: Size) -> Seq<char> {
    signed_decimal(size.width as int) + "x"@ + signed_decimal(size.height as int)
}

/// Writes a size as ffmpeg reads it.
pub fn size_text(size: Size) -> (r: String)
    ensures
        r@ == size_as_text(size),
        r@ == signed_decimal(size.width as int) + "x"@ + signed_decimal(size.height as int),
{
    let mut text = signed_decimal_text(size.width);
    text.append("x");
    let height = signed_decimal_text(size.height);
    text.append(height.as_str());
    text
}

/// The arguments for raw pictures on the standard input: three bytes for a pixel, blue first.
pub open spec fn input_args(size: Size, fps: Seq<char>) -> Seq<Seq<char>> {
    seq![
        "-y"@,
        "-f"@,
        "rawvideo"@,
        "-pixel_format"@,
        "bgr24"@,
        "-video_size"@,
        size_as_text(size),
        "-framerate"@,
        fps,
        "-i"@,
        "pipe:0"@,
    ]
}

/// The arguments that choose the encoder and its quality: VideoToolbox hardware, or else the
/// x264 software.
pub open spec fn codec_args(use_hwenc: bool) -> Seq<Seq<char>> {
    if use_hwenc {
        seq!["-vcodec"@, "h264_videotoolbox"@, "-q:v"@, "85"@]
    } else {
        seq!["-vcodec"@, "libx264"@, "-crf"@, "18"@, "-preset"@, "medium"@]
    }
}

/// The arguments that state the colours of high-definition television.
pub open spec fn color_args() -> Seq<Seq<char>> {
    seq![
        "-colorspace"@,
        "bt709"@,
        "-color_primaries"@,
        "bt709"@,
        "-color_trc"@,
        "bt709"@,
        "-color_range"@,
        "tv"@,
    ]
}

/// The arguments that encode a slider video from raw pictures.
pub open spec fn slider_command(
    size: Size,
    fps: Seq<char>,
    output: Seq<char>,
    use_hwenc: bool,
) -> Seq<Seq<char>> {
    input_args(size, fps) + codec_args(use_hwenc) + seq!["-pix_fmt"@, "yuv420p"@, output]
}

/// The arguments that encode a boomerang video from raw pictures.
pub open spec fn boomerang_command(
    size: Size,
    fps: Seq<char>,
    output: Seq<char>,
    use_hwenc: bool,
) -> Seq<Seq<char>> {
    input_args(size, fps) + codec_args(use_hwenc) + seq!["-pix_fmt"@, "yuv420p"@] + color_args()
        + seq![output]
}

/// The arguments that both kinds of video share.
fn common_args(size: Size, fps: &str, use_hwenc: bool) -> (r: Vec<String>)
    ensures
        texts(r@) == input_args(size, fps@) + codec_args(use_hwenc) + seq![
            "-pix_fmt"@,
            "yuv420p"@,
        ],
{
    let mut args: Vec<String> = Vec::new();
    let size_arg = size_text(size);
    assert(texts(args@) =~= Seq::empty());
    push_text(&mut args, "-y");
    push_text(&mut args, "-f");
    push_text(&mut args, "rawvideo");
    push_text(&mut args, "-pixel_format");
    push_text(&mut args, "bgr24");
    push_text(&mut args, "-video_size");
    push_text(&mut args, size_arg.as_str());
    push_text(&mut args, "-framerate");
    push_text(&mut args, fps);
    push_text(&mut args, "-i");
    push_text(&mut args, "pipe:0");
    assert(texts(args@) =~= input_args(size, fps@));
    let ghost input = texts(args@);
    if use_hwenc {
        push_text(&mut args, "-vcodec");
        push_text(&mut args, "h264_videotoolbox");
        push_text(&mut args, "-q:v");
        push_text(&mut args, "85");
    } else {
        push_text(&mut args, "-vcodec");
        push_text(&mut args, "libx264");
        push_text(&mut args, "-crf");
        push_text(&mut args, "18");
        push_text(&mut args, "-preset");
        push_text(&mut args, "medium");
    }
    assert(texts(args@) =~= input + codec_args(use_hwenc));
    push_text(&mut args, "-pix_fmt");
    push_text(&mut args, "yuv420p");
    assert(texts(args@) =~= input + codec_args(use_hwenc) + seq!["-pix_fmt"@, "yuv420p"@]);
    args
}

/// The arguments that encode a slider video: `fps` is the frame rate as text, and `output`
/// names the file.
pub fn slider_args(size: Size, fps: &str, output: &str, use_hwenc: bool) -> (r: Vec<String>)
    ensures
        texts(r@) == slider_command(size, fps@, output@, use_hwenc),
        r@.len() == if use_hwenc {
            18
        } else {
            20int
        },
        r@[5]@ == "-video_size"@,
        r@[6]@ == signed_decimal(size.width as int) + "x"@ + signed_decimal(size.height as int),
        r@[7]@ == "-framerate"@,
        r@[8]@ == fps@,
        r@[9]@ == "-i"@,
        r@[10]@ == "pipe:0"@,
        r@[11]@ == "-vcodec"@,
        r@[12]@ == (if use_hwenc {
            "h264_videotoolbox"@
        } else {
            "libx264"@
        }),
        r@[r@.len() - 1]@ == output@,
{
    let mut args = common_args(size, fps, use_hwenc);
    push_text(&mut args, output);
    assert(texts(args@) =~= slider_command(size, fps@, output@, use_hwenc));
    proof {
        law_slider_command(size, fps@, output@, use_hwenc);
        law_texts_of_arguments(args@);
    }
    args
}

/// The arguments that encode a boomerang video: `fps` is the frame rate as text, and `output`
/// names the file.
pub fn boomerang_args(size: Size, fps: &str, output: &str, use_hwenc: bool) -> (r: Vec<String>)
    ensures
        texts(r@) == boomerang_command(size, fps@, output@, use_hwenc),
        r@.len() == if use_hwenc {
            26
        } else {
            28int
        },
        r@[5]@ == "-video_size"@,
        r@[6]@ == signed_decimal(size.width as int) + "x"@ + signed_decimal(size.height as int),
        r@[7]@ == "-framerate"@,
        r@[8]@ == fps@,
        r@[9]@ == "-i"@,
        r@[10]@ == "pipe:0"@,
        r@[11]@ == "-vcodec"@,
        r@[12]@ == (if use_hwenc {
            "h264_videotoolbox"@
        } else {
            "libx264"@
        }),
        r@[r@.len() - 1]@ == output@,
{
    let mut args = common_args(size, fps, use_hwenc);
    push_text(&mut args, "-colorspace");
    push_text(&mut args, "bt709");
    push_text(&mut args, "-color_primaries");
    push_text(&mut args, "bt709");
    push_text(&mut args, "-color_trc");
    push_text(&mut args, "bt709");
    push_text(&mut args, "-color_range");
    push_text(&mut args, "tv");
    push_text(&mut args, output);
    assert(texts(args@) =~= boomerang_command(size, fps@, output@, use_hwenc));
    proof {
        law_boomerang_command(size, fps@, output@, use_hwenc);
        law_texts_of_arguments(args@);
    }
    args
}

/// The texts of an argument list are those of its arguments, one for one.
pub proof fn law_texts_of_arguments(args: Seq<String>)
    ensures
        texts(args).len() == args.len(),
        forall|i: int| 0 <= i < args.len() ==> #[trigger] texts(args)[i] == args[i]@,
        forall|i: int| 0 <= i < args.len() ==> #[trigger] args[i]@ == texts(args)[i],
{
}

/// What the arguments for a slider video say, one by one: raw pictures of the given size come
/// at the given rate on the standard input, the encoder is the one chosen, and the video goes
/// to the given file.
pub proof fn law_slider_command(
    size: Size,
    fps: Seq<char>,
    output: Seq<char>,
    use_hwenc: bool,
)
    ensures
        ({
            let c = slider_command(size, fps, output, use_hwenc);
            let n = if use_hwenc {
                15int
            } else {
                17int
            };
            &&& c.len() == n + 3
            &&& c[0] == "-y"@
            &&& c[1] == "-f"@
            &&& c[2] == "rawvideo"@
            &&& c[3] == "-pixel_format"@
            &&& c[4] == "bgr24"@
            &&& c[5] == "-video_size"@
            &&& c[6] == signed_decimal(size.width as int) + "x"@ + signed_decimal(
                size.height as int,
            )
            &&& c[7] == "-framerate"@
            &&& c[8] == fps
            &&& c[9] == "-i"@
            &&& c[10] == "pipe:0"@
            &&& use_hwenc ==> c.subrange(11, 15) == seq![
                "-vcodec"@,
                "h264_videotoolbox"@,
                "-q:v"@,
                "85"@,
            ]
            &&& !use_hwenc ==> c.subrange(11, 17) == seq![
                "-vcodec"@,
                "libx264"@,
                "-crf"@,
                "18"@,
                "-preset"@,
                "medium"@,
            ]
            &&& c[n] == "-pix_fmt"@
            &&& c[n + 1] == "yuv420p"@
            &&& c[n + 2] == output
        }),
{
    let c = slider_command(size, fps, output, use_hwenc);
    if use_hwenc {
        assert(c.subrange(11, 15) =~= codec_args(true));
    } else {
        assert(c.subrange(11, 17) =~= codec_args(false));
    }
}

/// What the arguments for a boomerang video say, one by one: those for a slider video, and the
/// colours of high-definition television before the file.
pub proof fn law_boomerang_command(
    size: Size,
    fps: Seq<char>,
    output: Seq<char>,
    use_hwenc: bool,
)
    ensures
        ({
            let c = boomerang_command(size, fps, output, use_hwenc);
            let n = if use_hwenc {
                15int
            } else {
                17int
            };
            &&& c.len() == n + 11
            &&& c[0] == "-y"@
            &&& c[1] == "-f"@
            &&& c[2] == "rawvideo"@
            &&& c[3] == "-pixel_format"@
            &&& c[4] == "bgr24"@
            &&& c[5] == "-video_size"@
            &&& c[6] == signed_decimal(size.width as int) + "x"@ + signed_decimal(
                size.height as int,
            )
            &&& c[7] == "-framerate"@
            &&& c[8] == fps
            &&& c[9] == "-i"@
            &&& c[10] == "pipe:0"@
            &&& use_hwenc ==> c.subrange(11, 15) == seq![
                "-vcodec"@,
                "h264_videotoolbox"@,
                "-q:v"@,
                "85"@,
            ]
            &&& !use_hwenc ==> c.subrange(11, 17) == seq![
                "-vcodec"@,
                "libx264"@,
                "-crf"@,
                "18"@,
                "-preset"@,
                "medium"@,
            ]
            &&& c[n] == "-pix_fmt"@
            &&& c[n + 1] == "yuv420p"@
            &&& c[n + 2] == "-colorspace"@
            &&& c[n + 3] == "bt709"@
            &&& c[n + 4] == "-color_primaries"@
            &&& c[n + 5] == "bt709"@
            &&& c[n + 6] == "-color_trc"@
            &&& c[n + 7] == "bt709"@
            &&& c[n + 8] == "-color_range"@
            &&& c[n + 9] == "tv"@
            &&& c[n + 10] == output
        }),
{
    let c = boomerang_command(size, fps, output, use_hwenc);
    if use_hwenc {
        assert(c.subrange(11, 15) =~= codec_args(true));
    } else {
        assert(c.subrange(11, 17) =~= codec_args(false));
    }
}

/// The choice of the encoder changes its own arguments and nothing before or after them, and
/// both kinds of video describe their input in the same way.
pub proof fn law_encoder_choice_changes_nothing_else(
    size: Size,
    fps: Seq<char>,
    output: Seq<char>,
)
    ensures
        ({
            let hard = slider_command(size, fps, output, true);
            let soft = slider_command(size, fps, output, false);
            &&& hard.take(11) == soft.take(11)
            &&& hard.skip(15) == soft.skip(17)
        }),
        ({
            let hard = boomerang_command(size, fps, output, true);
            let soft = boomerang_command(size, fps, output, false);
            &&& hard.take(11) == soft.take(11)
            &&& hard.skip(15) == soft.skip(17)
        }),
        slider_command(size, fps, output, true).take(15) == boomerang_command(
            size,
            fps,
            output,
            true,
        ).take(15),
        slider_command(size, fps, output, false).take(17) == boomerang_command(
            size,
            fps,
            output,
            false,
        ).take(17),
{
    let hard = slider_command(size, fps, output, true);
    let soft = slider_command(size, fps, output, false);
    assert(hard.take(11) =~= soft.take(11));
    assert(hard.skip(15) =~= soft.skip(17));
    let hard_cut = boomerang_command(size, fps, output, true);
    let soft_cut = boomerang_command(size, fps, output, false);
    assert(hard_cut.take(11) =~= soft_cut.take(11));
    assert(hard_cut.skip(15) =~= soft_cut.skip(17));
    assert(hard.take(15) =~= hard_cut.take(15));
    assert(soft.take(17) =~= soft_cut.take(17));
}

/// The arguments that encode `input` anew as H.264, at most 2160 lines high, the width in
/// proportion and even.
pub open spec fn compress_command(input: Seq<char>, output: Seq<char>) -> Seq<Seq<char>> {
    seq![
        "-y"@,
        "-i"@,
        input,
        "-vf"@,
        "scale=-2:min(ih\\,2160)"@,
        "-vcodec"@,
        "libx264"@,
        "-crf"@,
        "18"@,
        "-preset"@,
        "slow"@,
        "-pix_fmt"@,
        "yuv420p"@,
        "-acodec"@,
        "copy"@,
        output,
    ]
}

/// The arguments that compress the video `input` into `output`.
pub fn compress_args(input: &str, output: &str) -> (r: Vec<String>)
    ensures
        texts(r@) == compress_command(input@, output@),
        r@.len() == 16,
        r@[1]@ == "-i"@,
        r@[2]@ == input@,
        r@[3]@ == "-vf"@,
        r@[4]@ == "scale=-2:min(ih\\,2160)"@,
        r@[15]@ == output@,
{
    let mut args: Vec<String> = Vec::new();
    assert(texts(args@) =~= Seq::empty());
    push_text(&mut args, "-y");
    push_text(&mut args, "-i");
    push_text(&mut args, input);
    push_text(&mut args, "-vf");
    push_text(&mut args, "scale=-2:min(ih\\,2160)");
    push_text(&mut args, "-vcodec");
    push_text(&mut args, "libx264");
    push_text(&mut args, "-crf");
    push_text(&mut args, "18");
    push_text(&mut args, "-preset");
    push_text(&mut args, "slow");
    push_text(&mut args, "-pix_fmt");
    push_text(&mut args, "yuv420p");
    push_text(&mut args, "-acodec");
    push_text(&mut args, "copy");
    push_text(&mut args, output);
    assert(texts(args@) =~= compress_command(input@, output@));
    proof {
        law_texts_of_arguments(args@);
    }
    args
}

/// What the arguments for compressing a video say, one by one.
pub proof fn law_compress_command(input: Seq<char>, output: Seq<char>)
    ensures
        ({
            let c = compress_command(input, output);
            &&& c.len() == 16
            &&& c[0] == "-y"@
            &&& c[1] == "-i"@
            &&& c[2] == input
            &&& c[3] == "-vf"@
            &&& c[4] == "scale=-2:min(ih\\,2160)"@
            &&& c[5] == "-vcodec"@
            &&& c[6] == "libx264"@
            &&& c[7] == "-crf"@
            &&& c[8] == "18"@
            &&& c[9] == "-preset"@
            &&& c[10] == "slow"@
            &&& c[11] == "-pix_fmt"@
            &&& c[12] == "yuv420p"@
            &&& c[13] == "-acodec"@
            &&& c[14] == "copy"@
            &&& c[15] == output
        }),
{
}

/// The arguments that ask for the list of encoders.
pub fn encoder_list_args() -> (r: Vec<String>)
    ensures
        texts(r@) == seq!["-hide_banner"@, "-encoders"@],
        r@.len() == 2,
        r@[0]@ == "-hide_banner"@,
        r@[1]@ == "-encoders"@,
{
    let mut args: Vec<String> = Vec::new();
    assert(texts(args@) =~= Seq::empty());
    push_text(&mut args, "-hide_banner");
    push_text(&mut args, "-encoders");
    assert(texts(args@) =~= seq!["-hide_banner"@, "-encoders"@]);
    proof {
        law_texts_of_arguments(args@);
    }
    args
}

/// The encoder's name for people.
pub fn encoder_name(use_hwenc: bool) -> (r: &'static str)
    ensures
        r@ == (if use_hwenc {
            "h264_videotoolbox (HW)"@
        } else {
            "libx264 (SW)"@
        }),
{
    if use_hwenc {
        "h264_videotoolbox (HW)"
    } else {
        "libx264 (SW)"
    }
}

/// The bytes of an ASCII word.
pub open spec fn ascii(word: Seq<char>) -> Seq<u8> {
    Seq::new(word.len(), |i: int| word[i] as u8)
}

/// `word` stands in `text` at position `at`.
pub open spec fn stands_at(text: Seq<u8>, word: Seq<u8>, at: int) -> bool {
    0 <= at <= text.len() - word.len() && text.subrange(at, at + word.len()) == word
}

/// `word` stands somewhere in `text`.
pub open spec fn holds_word(text: Seq<u8>, word: Seq<u8>) -> bool {
    exists|at: int| stands_at(text, word, at)
}

/// A word is found wherever it stands, whatever is before and after it.
pub proof fn law_word_is_found_anywhere(before: Seq<u8>, word: Seq<u8>, after: Seq<u8>)
    ensures
        holds_word(before + word + after, word),
{
    let text = before + word + after;
    assert(text.subrange(before.len() as int, (before.len() + word.len()) as int) =~= word);
    assert(stands_at(text, word, before.len() as int));
}

/// A text in which a word is found is made of that word and what is before and after it.
pub proof fn law_found_word_is_there(text: Seq<u8>, word: Seq<u8>) -> (parts: (Seq<u8>, Seq<u8>))
    requires
        holds_word(text, word),
    ensures
        text == parts.0 + word + parts.1,
{
    let at = choose|at: int| stands_at(text, word, at);
    let parts = (text.take(at), text.skip(at + word.len()));
    assert(text =~= parts.0 + text.subrange(at, at + word.len()) + parts.1);
    parts
}

/// The bytes of a word are the codes of its characters, one for one.
pub proof fn law_bytes_of_a_word(word: Seq<char>)
    ensures
        ascii(word).len() == word.len(),
        forall|i: int| 0 <= i < word.len() ==> ascii(word)[i] == word[i] as u8,
{
}

/// Whether `word` stands in `text` at position `at`.
fn word_at(text: &Vec<u8>, word: &[u8], at: usize) -> (r: bool)
    requires
        at + word@.len() <= text@.len(),
    ensures
        r == stands_at(text@, word@, at as int),
{
    let ghost part = text@.subrange(at as int, at + word@.len());
    let len: usize = text.len();
    let mut i: usize = 0;
    while i < word.len()
        invariant
            i <= word@.len(),
            at + word@.len() <= text@.len() == len,
            part == text@.subrange(at as int, at + word@.len()),
            forall|j: int| 0 <= j < i ==> part[j] == word@[j],
        decreases word@.len() - i,
    {
        assert(part[i as int] == text@[at + i]);
        if text[at + i] != word[i] {
            return false;
        }
        i = i + 1;
    }
    assert(part =~= word@);
    true
}

proof fn lemma_encoder_position(text: Seq<u8>)
    ensures
        holds_word(text, ascii("h264_videotoolbox"@)) <==> exists|at: int|
            0 <= at <= text.len() - 17 && #[trigger] text.subrange(at, at + 17) == Seq::new(
                17,
                |i: int| "h264_videotoolbox"@[i] as u8,
            ),
{
    reveal_strlit("h264_videotoolbox");
    let word = ascii("h264_videotoolbox"@);
    assert(word =~= Seq::new(17, |i: int| "h264_videotoolbox"@[i] as u8));
    if holds_word(text, word) {
        let at = choose|at: int| stands_at(text, word, at);
        assert(text.subrange(at, at + 17) == word);
    }
    if exists|at: int| 0 <= at <= text.len() - 17 && #[trigger] text.subrange(at, at + 17) == word {
        let at = choose|at: int|
            0 <= at <= text.len() - 17 && #[trigger] text.subrange(at, at + 17) == word;
        assert(stands_at(text, word, at));
    }
}

/// Whether VideoToolbox is among the encoders that ffmpeg lists; without an answer it is not.
pub fn lists_videotoolbox(listing: &Option<Vec<u8>>) -> (r: bool)
    ensures
        r == (listing is Some && holds_word(listing->0@, ascii("h264_videotoolbox"@))),
        r ==> listing is Some && exists|at: int|
            0 <= at <= listing->0@.len() - 17 && #[trigger] listing->0@.subrange(at, at + 17)
                == Seq::new(17, |i: int| "h264_videotoolbox"@[i] as u8),
        !r && listing is Some ==> forall|at: int|
            0 <= at <= listing->0@.len() - 17 ==> #[trigger] listing->0@.subrange(at, at + 17)
                != Seq::new(17, |i: int| "h264_videotoolbox"@[i] as u8),
{
    proof {
        if listing is Some {
            lemma_encoder_position(listing->0@);
        }
    }
    let text = match listing {
        Some(text) => text,
        None => {
            return false;
        },
    };
    let name = "h264_videotoolbox";
    let word = name.as_bytes();
    proof {
        reveal_strlit("h264_videotoolbox");
        broadcast use vstd::string::group_string_axioms;

        assert(name.is_ascii());
        assert(word@ =~= ascii(name@));
    }
    if text.len() < word.len() {
        return false;
    }
    let last: usize = text.len() - word.len();
    let mut at: usize = 0;
    while at <= last
        invariant
            last + word@.len() == text@.len(),
            word@ == ascii("h264_videotoolbox"@),
            *listing == Some(*text),
            at <= last + 1,
            word@.len() > 0,
            text@.len() <= usize::MAX,
            forall|i: int| 0 <= i < at ==> !stands_at(text@, word@, i),
        decreases last + 1 - at,
    {
        if word_at(text, word, at) {
            proof {
                reveal_strlit("h264_videotoolbox");
                assert(listing->0@.subrange(at as int, at + 17) =~= Seq::new(
                    17,
                    |i: int| "h264_videotoolbox"@[i] as u8,
                ));
            }
            return true;
        }
        at = at + 1;
    }
    false
}

} // verus!
