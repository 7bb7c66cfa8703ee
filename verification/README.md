# image_slider

A verified library that turns a directory of pictures into a video, and three small programs
around it:

- `slideshow` (no argument): each picture is held, then fades into the next one; the video is
  compressed to 2160 lines at the end.
- `fast-slider-v2`: the same, with the next picture decoded on a second thread and the frames
  piped to ffmpeg.
- `boomerang`: the pictures forward and backward with hard cuts, over and over.

`src/` holds what the programs decide: which files are pictures and in what order, how a picture
fits the frame, how many frames a duration has, how a crossfade is weighted, which frame comes
when, what the decoding thread does next, which arguments ffmpeg gets and what is reported. All
of it is proved with Verus. Contracts speak of the whole video as a sequence of frames, and the
functions named `law_..` state what holds of it.

Sizes, frame counts and weights are computed in binary64, so the library has its own `Double`: the
bit pattern of an `f64` taken apart into integers, with a proved multiplication, division and
rounding. The programs pass `f64::to_bits` in and `f64::from_bits` out.

`app/` does the rest: directories, OpenCV, threads and the ffmpeg process.
