use vstd::prelude::*;

use crate::text::{digits_of, string_from_utf8, u64_to_dec, lemma_digits_of_digits,
    lemma_ascii_bytes_utf8, ascii_bytes};

verus! {

use vstd::utf8::decode_utf8;
use vstd::string::StringExecFns;

// ============================================================
// The transcoding collaborator's configuration
//
// Transcoding spawns an external encoder process and streams its
// output; the process itself is an external collaborator. What
// stands here is the configuration and the exact argument list
// the encoder is invoked with — the part worth pinning down,
// since a wrong argument list encodes the wrong stream.
// ============================================================

/// How a transcode is encoded: codecs, bitrate, container, and
/// optional scaling.
#[derive(Debug, Clone)]
pub struct TranscodeOptions {
    pub video_codec: String,
    pub video_bitrate: String,
    pub audio_codec: String,
    pub format: String,
    pub resolution: Option<String>,
    pub frame_rate: Option<u32>,
}

/// The mathematical value of a configuration.
#[verifier::ext_equal]
pub ghost struct TranscodeOptionsView {
    pub video_codec: Seq<char>,
    pub video_bitrate: Seq<char>,
    pub audio_codec: Seq<char>,
    pub format: Seq<char>,
    pub resolution: Option<Seq<char>>,
    pub frame_rate: Option<u32>,
}

impl View for TranscodeOptions {
    type V = TranscodeOptionsView;

    open spec fn view(&self) -> TranscodeOptionsView {
        TranscodeOptionsView {
            video_codec: self.video_codec@,
            video_bitrate: self.video_bitrate@,
            audio_codec: self.audio_codec@,
            format: self.format@,
            resolution: match self.resolution {
                Some(ref s) => Some(s@),
                None => None,
            },
            frame_rate: self.frame_rate,
        }
    }
}

impl Default for TranscodeOptions {
    /// 720p30 H.264 with AAC audio in an MPEG-TS container at 2M.
    fn default() -> (r: Self)
        ensures
            r@.video_codec == "libx264"@,
            r@.video_bitrate == "2M"@,
            r@.audio_codec == "aac"@,
            r@.format == "mpegts"@,
            r@.resolution == Some("1280x720"@),
            r@.frame_rate == Some(30u32),
    {
        TranscodeOptions {
            video_codec: String::from_str("libx264"),
            video_bitrate: String::from_str("2M"),
            audio_codec: String::from_str("aac"),
            format: String::from_str("mpegts"),
            resolution: Some(String::from_str("1280x720")),
            frame_rate: Some(30),
        }
    }
}

/// A number as the characters of its decimal numeral.
pub open spec fn dec_chars(n: nat) -> Seq<char> {
    digits_of(n).map_values(|b: u8| b as char)
}

/// Prints `n` in decimal as a string.
pub fn u64_string(n: u64) -> (r: String)
    ensures
        r@ == dec_chars(n as nat),
{
    let d = u64_to_dec(n);
    proof {
        lemma_digits_of_digits(n as nat);
        assert(ascii_bytes(d@));
        lemma_ascii_bytes_utf8(d@);
    }
    match string_from_utf8(d) {
        Some(s) => s,
        None => {
            proof {
                assert(false);
            }
            String::new()
        },
    }
}

/// The views of an argument list.
pub open spec fn arg_views(v: Seq<String>) -> Seq<Seq<char>> {
    v.map_values(|s: String| s@)
}

/// The exact encoder argument list for one input under a
/// configuration: quiet logging, the input, the video and audio
/// settings, optional scaling and rate, low-latency tuning for
/// `libx264`, then the container streamed to standard output.
pub open spec fn ffmpeg_args_spec(o: TranscodeOptionsView, input: Seq<char>) -> Seq<Seq<char>> {
    seq!["-hide_banner"@, "-loglevel"@, "error"@, "-i"@, input, "-c:v"@, o.video_codec, "-b:v"@, o.video_bitrate]
        + (match o.resolution {
        Some(res) => seq!["-s"@, res],
        None => Seq::empty(),
    }) + (match o.frame_rate {
        Some(fps) => seq!["-r"@, dec_chars(fps as nat)],
        None => Seq::empty(),
    }) + (if o.video_codec == "libx264"@ {
        seq!["-preset"@, "veryfast"@, "-tune"@, "zerolatency"@]
    } else {
        Seq::empty()
    }) + seq!["-c:a"@, o.audio_codec, "-f"@, o.format, "pipe:1"@]
}

/// Builds the encoder's argument list, exactly as
/// `ffmpeg_args_spec` says.
pub fn ffmpeg_args(options: &TranscodeOptions, input_path: &str) -> (r: Vec<String>)
    ensures
        arg_views(r@) == ffmpeg_args_spec(options@, input_path@),
{
    let mut out: Vec<String> = Vec::new();
    out.push(String::from_str("-hide_banner"));
    out.push(String::from_str("-loglevel"));
    out.push(String::from_str("error"));
    out.push(String::from_str("-i"));
    out.push(String::from_str(input_path));
    out.push(String::from_str("-c:v"));
    out.push(options.video_codec.clone());
    out.push(String::from_str("-b:v"));
    out.push(options.video_bitrate.clone());
    match &options.resolution {
        Some(res) => {
            out.push(String::from_str("-s"));
            out.push(res.clone());
        },
        None => {},
    }
    match options.frame_rate {
        Some(fps) => {
            out.push(String::from_str("-r"));
            out.push(u64_string(fps as u64));
        },
        None => {},
    }
    let tuned = String::from_str("libx264");
    if options.video_codec == tuned {
        out.push(String::from_str("-preset"));
        out.push(String::from_str("veryfast"));
        out.push(String::from_str("-tune"));
        out.push(String::from_str("zerolatency"));
    }
    out.push(String::from_str("-c:a"));
    out.push(options.audio_codec.clone());
    out.push(String::from_str("-f"));
    out.push(options.format.clone());
    out.push(String::from_str("pipe:1"));
    proof {
        assert(arg_views(out@) =~= ffmpeg_args_spec(options@, input_path@));
    }
    out
}

} // verus!
