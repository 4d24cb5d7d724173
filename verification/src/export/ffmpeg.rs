//! Re-encoding a video: the arguments ffmpeg is run with, and what its answer comes to.

use vstd::prelude::*;

use crate::text::{chars_of, is_empty_text, lemma_views_push, string_of, trim_text, trimmed, views};

verus! {

/// The most characters of what ffmpeg said that are passed on.
pub const REPORTED_STDERR: usize = 400;

/// What stands before the main input.
pub open spec fn opening() -> Seq<Seq<char>> {
    seq!["-nostdin"@, "-hide_banner"@, "-loglevel"@, "error"@, "-y"@, "-i"@]
}

/// What draws a caption layer over every frame, or picks the frames as they are.
pub open spec fn picture(overlay: Option<Seq<char>>) -> Seq<Seq<char>> {
    match overlay {
        Some(overlay) => seq![
            "-i"@,
            overlay,
            "-filter_complex"@,
            "[1:v][0:v]scale2ref=w=iw:h=ih[caption][frame];[frame][caption]overlay=0:0:format=auto[burned]"@,
            "-map"@,
            "[burned]"@,
        ],
        None => seq!["-map"@, "0:v:0"@],
    }
}

/// How sound and picture are encoded, up to the end of the options.
pub open spec fn encoding() -> Seq<Seq<char>> {
    seq!["-map"@, "0:a:0?"@, "-c:v"@, "libx264"@, "-preset"@, "medium"@, "-crf"@, "20"@, "-pix_fmt"@, "yuv420p"@, "-c:a"@, "copy"@, "-movflags"@, "+faststart"@, "--"@]
}

/// The arguments of one re-encode.
pub open spec fn arguments(main: Seq<char>, overlay: Option<Seq<char>>, output: Seq<char>) -> Seq<Seq<char>> {
    opening() + seq![main] + picture(overlay) + encoding() + seq![output]
}

pub open spec fn shown(text: Option<&str>) -> Option<Seq<char>> {
    match text {
        Some(text) => Some(text@),
        None => None,
    }
}

fn add_word(argv: &mut Vec<String>, word: &str)
    ensures
        views(final(argv)@) == views(old(argv)@).push(word@),
{
    let word = word.to_owned();
    proof {
        lemma_views_push(argv@, word);
    }
    argv.push(word);
}

/// The arguments ffmpeg is run with, each path spelled as it is given.
pub fn argv(main: &str, overlay: Option<&str>, output: &str) -> (r: Vec<String>)
    ensures
        views(r@) == arguments(main@, shown(overlay), output@),
{
    let mut argv: Vec<String> = Vec::new();
    assert(views(argv@) =~= seq![]);
    add_word(&mut argv, "-nostdin");
    add_word(&mut argv, "-hide_banner");
    add_word(&mut argv, "-loglevel");
    add_word(&mut argv, "error");
    add_word(&mut argv, "-y");
    add_word(&mut argv, "-i");
    assert(views(argv@) =~= opening());
    add_word(&mut argv, main);
    let ghost so_far = views(argv@);
    match overlay {
        Some(overlay) => {
            add_word(&mut argv, "-i");
            add_word(&mut argv, overlay);
            add_word(&mut argv, "-filter_complex");
            add_word(
                &mut argv,
                "[1:v][0:v]scale2ref=w=iw:h=ih[caption][frame];[frame][caption]overlay=0:0:format=auto[burned]",
            );
            add_word(&mut argv, "-map");
            add_word(&mut argv, "[burned]");
        },
        None => {
            add_word(&mut argv, "-map");
            add_word(&mut argv, "0:v:0");
        },
    }
    assert(views(argv@) =~= so_far + picture(shown(overlay)));
    let ghost so_far = views(argv@);
    add_word(&mut argv, "-map");
    add_word(&mut argv, "0:a:0?");
    add_word(&mut argv, "-c:v");
    add_word(&mut argv, "libx264");
    add_word(&mut argv, "-preset");
    add_word(&mut argv, "medium");
    add_word(&mut argv, "-crf");
    add_word(&mut argv, "20");
    add_word(&mut argv, "-pix_fmt");
    add_word(&mut argv, "yuv420p");
    add_word(&mut argv, "-c:a");
    add_word(&mut argv, "copy");
    add_word(&mut argv, "-movflags");
    add_word(&mut argv, "+faststart");
    add_word(&mut argv, "--");
    assert(views(argv@) =~= so_far + encoding());
    add_word(&mut argv, output);
    assert(views(argv@) =~= arguments(main@, shown(overlay), output@));
    argv
}

/// Whatever the paths are, the output is the last argument and stands right behind the end of the
/// options, so that a path opening with a dash is not read as one.
pub proof fn law_the_output_is_no_option(main: Seq<char>, overlay: Option<Seq<char>>, output: Seq<char>)
    ensures
        ({
            let all = arguments(main, overlay, output);
            all.last() == output && all[all.len() - 2] == "--"@
        }),
{
}

/// A step of a filter graph: what it takes in, what it is, and what it gives out, by label.
pub struct Filter {
    pub takes: Seq<Seq<char>>,
    pub name: Seq<char>,
    pub gives: Seq<Seq<char>>,
}

/// Labels, each in brackets.
pub open spec fn labelled(labels: Seq<Seq<char>>) -> Seq<char>
    decreases labels.len(),
{
    if labels.len() == 0 {
        seq![]
    } else {
        labelled(labels.drop_last()) + seq!['['] + labels.last() + seq![']']
    }
}

/// The text that spells one step.
pub open spec fn step_text(step: Filter) -> Seq<char> {
    labelled(step.takes) + step.name + labelled(step.gives)
}

/// Whether an option stands among arguments with a value.
pub open spec fn has_option(all: Seq<Seq<char>>, name: Seq<char>, value: Seq<char>) -> bool {
    exists|i: int| 0 <= i < all.len() - 1 && #[trigger] all[i] == name && all[i + 1] == value
}

/// The main file is the first input and the caption the second: so the graph's `0:v` is the frame,
/// and its `1:v` the caption.
pub proof fn law_the_inputs_come_in_turn(main: Seq<char>, overlay: Option<Seq<char>>, output: Seq<char>)
    ensures
        ({
            let all = arguments(main, overlay, output);
            &&& all[5] == "-i"@ && all[6] == main
            &&& forall|i: int| 0 <= i < 5 ==> #[trigger] all[i] != "-i"@
            &&& overlay matches Some(layer) ==> all[7] == "-i"@ && all[8] == layer
            &&& forall|i: int| 9 <= i < all.len() - 1 ==> #[trigger] all[i] != "-i"@
            &&& overlay is None ==> all[7] != "-i"@ && all[8] != "-i"@
        }),
{
    let all = arguments(main, overlay, output);
    lemma_words();
    match overlay {
        Some(layer) => {
            let rest = seq![
                "-filter_complex"@,
                "[1:v][0:v]scale2ref=w=iw:h=ih[caption][frame];[frame][caption]overlay=0:0:format=auto[burned]"@,
                "-map"@,
                "[burned]"@,
            ] + encoding();
            assert forall|i: int| 9 <= i < all.len() - 1 implies #[trigger] all[i] != "-i"@ by {
                assert(all[i] == rest[i - 9]);
            }
        },
        None => {},
    }
}

/// None of the words an option is spelled with is the one that opens an input.
proof fn lemma_words()
    ensures
        forall|i: int| 0 <= i < 5 ==> #[trigger] opening()[i] != "-i"@,
        forall|i: int| 0 <= i < encoding().len() ==> #[trigger] encoding()[i] != "-i"@,
        "-map"@ != "-i"@,
        "0:v:0"@ != "-i"@,
        "[burned]"@ != "-i"@,
        "-filter_complex"@ != "-i"@,
        "[1:v][0:v]scale2ref=w=iw:h=ih[caption][frame];[frame][caption]overlay=0:0:format=auto[burned]"@ != "-i"@,
{
    reveal_strlit("-i");
    reveal_strlit("-nostdin");
    reveal_strlit("-hide_banner");
    reveal_strlit("-loglevel");
    reveal_strlit("error");
    reveal_strlit("-y");
    reveal_strlit("-map");
    reveal_strlit("0:v:0");
    reveal_strlit("[burned]");
    reveal_strlit("-filter_complex");
    reveal_strlit("[1:v][0:v]scale2ref=w=iw:h=ih[caption][frame];[frame][caption]overlay=0:0:format=auto[burned]");
    reveal_strlit("0:a:0?");
    reveal_strlit("-c:v");
    reveal_strlit("libx264");
    reveal_strlit("-preset");
    reveal_strlit("medium");
    reveal_strlit("-crf");
    reveal_strlit("20");
    reveal_strlit("-pix_fmt");
    reveal_strlit("yuv420p");
    reveal_strlit("-c:a");
    reveal_strlit("copy");
    reveal_strlit("-movflags");
    reveal_strlit("+faststart");
    reveal_strlit("--");
    let two = "-i"@;
    assert(two.len() == 2 && two[1] == 'i');
    assert("-y"@[1] != 'i' && "20"@[1] != 'i' && "--"@[1] != 'i');
}

/// The caption is drawn over the frame: the graph scales the second input, the caption, to the size
/// of the first, the frame, and then lays it on the frame, which is the overlay's first input and so
/// what lies below. What comes out of the overlay is what is mapped. Without a caption there is no
/// graph, and the frames are mapped as they are.
pub proof fn law_the_caption_lies_over_the_frame(main: Seq<char>, overlay: Option<Seq<char>>, output: Seq<char>)
    ensures
        overlay is Some ==> exists|scale: Filter, lay: Filter|
            {
                &&& has_option(arguments(main, overlay, output), "-filter_complex"@, #[trigger] step_text(scale) + ";"@ + #[trigger] step_text(lay))
                &&& scale.name == "scale2ref=w=iw:h=ih"@
                &&& scale.takes == seq!["1:v"@, "0:v"@]
                &&& scale.gives.len() == 2 && scale.gives[0] != scale.gives[1]
                &&& lay.name == "overlay=0:0:format=auto"@
                &&& lay.takes.len() == 2
                &&& lay.takes[0] == scale.gives[1]
                &&& lay.takes[1] == scale.gives[0]
                &&& lay.gives.len() == 1
                &&& has_option(arguments(main, overlay, output), "-map"@, labelled(lay.gives))
            },
        overlay is None ==> has_option(arguments(main, overlay, output), "-map"@, "0:v:0"@),
{
    let all = arguments(main, overlay, output);
    match overlay {
        Some(layer) => {
            let scale = Filter { takes: seq!["1:v"@, "0:v"@], name: "scale2ref=w=iw:h=ih"@, gives: seq!["caption"@, "frame"@] };
            let lay = Filter { takes: seq!["frame"@, "caption"@], name: "overlay=0:0:format=auto"@, gives: seq!["burned"@] };
            lemma_labelled_two("1:v"@, "0:v"@);
            lemma_labelled_two("caption"@, "frame"@);
            lemma_labelled_two("frame"@, "caption"@);
            lemma_labelled_one("burned"@);
            reveal_strlit("1:v");
            reveal_strlit("0:v");
            reveal_strlit("caption");
            reveal_strlit("frame");
            reveal_strlit("burned");
            reveal_strlit("[burned]");
            reveal_strlit(";");
            reveal_strlit("scale2ref=w=iw:h=ih");
            reveal_strlit("overlay=0:0:format=auto");
            reveal_strlit("[1:v][0:v]scale2ref=w=iw:h=ih[caption][frame];[frame][caption]overlay=0:0:format=auto[burned]");
            let graph = "[1:v][0:v]scale2ref=w=iw:h=ih[caption][frame];[frame][caption]overlay=0:0:format=auto[burned]"@;
            assert(step_text(scale) + ";"@ + step_text(lay) =~= graph);
            assert(labelled(lay.gives) =~= "[burned]"@);
            assert(all[9] == "-filter_complex"@ && all[10] == graph && all[11] == "-map"@ && all[12] == "[burned]"@);
            assert(has_option(all, "-filter_complex"@, step_text(scale) + ";"@ + step_text(lay)));
            assert(has_option(all, "-map"@, labelled(lay.gives)));
            assert("caption"@.len() != "frame"@.len());
        },
        None => {
            assert(all[7] == "-map"@ && all[8] == "0:v:0"@);
        },
    }
}

proof fn lemma_labelled_one(a: Seq<char>)
    ensures
        labelled(seq![a]) == seq!['['] + a + seq![']'],
{
    reveal_with_fuel(labelled, 2);
    assert(seq![a].drop_last() =~= Seq::empty());
    assert(labelled(seq![a]) =~= seq!['['] + a + seq![']']);
}

proof fn lemma_labelled_two(a: Seq<char>, b: Seq<char>)
    ensures
        labelled(seq![a, b]) == seq!['['] + a + seq![']'] + seq!['['] + b + seq![']'],
{
    lemma_labelled_one(a);
    assert(seq![a, b].drop_last() =~= seq![a]);
}

/// How a video is re-encoded: the picture to H.264 at a constant quality every player reads, the
/// first sound track copied as it is where there is one, and the index at the front; what is there
/// is written over, and nothing is asked.
pub proof fn law_a_video_is_encoded_for_every_player(main: Seq<char>, overlay: Option<Seq<char>>, output: Seq<char>)
    ensures
        ({
            let all = arguments(main, overlay, output);
            &&& has_option(all, "-c:v"@, "libx264"@)
            &&& has_option(all, "-preset"@, "medium"@)
            &&& has_option(all, "-crf"@, "20"@)
            &&& has_option(all, "-pix_fmt"@, "yuv420p"@)
            &&& has_option(all, "-map"@, "0:a:0?"@)
            &&& has_option(all, "-c:a"@, "copy"@)
            &&& has_option(all, "-movflags"@, "+faststart"@)
            &&& has_option(all, "-loglevel"@, "error"@)
            &&& all[0] == "-nostdin"@
            &&& all[4] == "-y"@
            &&& all.len() == (if overlay is Some { 29 } else { 25int })
        }),
{
    let all = arguments(main, overlay, output);
    let at: int = 7 + picture(overlay).len() as int;
    assert(all[2] == "-loglevel"@);
    assert(all[at] == "-map"@ && all[at + 1] == "0:a:0?"@);
    assert(all[at + 2] == "-c:v"@ && all[at + 3] == "libx264"@);
    assert(all[at + 4] == "-preset"@ && all[at + 5] == "medium"@);
    assert(all[at + 6] == "-crf"@ && all[at + 7] == "20"@);
    assert(all[at + 8] == "-pix_fmt"@ && all[at + 9] == "yuv420p"@);
    assert(all[at + 10] == "-c:a"@ && all[at + 11] == "copy"@);
    assert(all[at + 12] == "-movflags"@ && all[at + 13] == "+faststart"@);
}

/// Why a re-encode did not come about. Paths and a `source` are spelled as they are shown.
#[derive(Debug, PartialEq, Eq)]
pub enum FfmpegError {
    Spawn { ffmpeg: String, source: String },
    Failed { main: String, said: String },
}

/// The words of an [`FfmpegError`].
pub open spec fn ffmpeg_words(e: FfmpegError) -> Seq<char> {
    match e {
        FfmpegError::Spawn { ffmpeg, source } => "could not run "@ + ffmpeg@ + ": "@ + source@
            + "; it was found on PATH, so check it is executable or turn transcoding off"@,
        FfmpegError::Failed { main, said } => if said@.len() == 0 {
            "ffmpeg refused "@ + main@ + " and said nothing about why"@
        } else {
            "ffmpeg could not re-encode "@ + main@ + ": "@ + said@
        },
    }
}

impl FfmpegError {
    /// The sentence a reader is shown.
    #[must_use]
    pub fn message(&self) -> (r: String)
        ensures
            r@ == ffmpeg_words(*self),
    {
        match self {
            FfmpegError::Spawn { ffmpeg, source } => {
                let mut out = "could not run ".to_owned();
                out.append(ffmpeg);
                out.append(": ");
                out.append(source);
                out.append("; it was found on PATH, so check it is executable or turn transcoding off");
                out
            },
            FfmpegError::Failed { main, said } => {
                if is_empty_text(said) {
                    let mut out = "ffmpeg refused ".to_owned();
                    out.append(main);
                    out.append(" and said nothing about why");
                    out
                } else {
                    let mut out = "ffmpeg could not re-encode ".to_owned();
                    out.append(main);
                    out.append(": ");
                    out.append(said);
                    out
                }
            },
        }
    }
}

/// What is passed on of what ffmpeg said: trimmed, and cut to its first characters.
pub open spec fn reported(said: Seq<char>) -> Seq<char> {
    let said = trimmed(said);
    if said.len() <= REPORTED_STDERR {
        said
    } else {
        said.take(REPORTED_STDERR as int)
    }
}

/// What a finished run of ffmpeg comes to.
pub fn judged(success: bool, main: &str, said: &str) -> (r: Result<(), FfmpegError>)
    ensures
        match r {
            Ok(()) => success,
            Err(FfmpegError::Failed { main: file, said: words }) => !success && file@ == main@ && words@ == reported(said@),
            Err(FfmpegError::Spawn { .. }) => false,
        },
{
    if success {
        return Ok(());
    }
    let said = trim_text(said);
    let chars = chars_of(&said);
    let said = if chars.len() <= REPORTED_STDERR {
        said
    } else {
        let cut = string_of(&chars, 0, REPORTED_STDERR);
        assert(cut@ =~= chars@.take(REPORTED_STDERR as int));
        cut
    };
    Err(FfmpegError::Failed { main: main.to_owned(), said })
}

/// What is passed on of what ffmpeg said opens what it said, white space at the ends aside: all of
/// it up to four hundred characters, and so many of it past that.
pub proof fn law_what_ffmpeg_said_is_passed_on(said: Seq<char>)
    ensures
        reported(said).is_prefix_of(trimmed(said)),
        trimmed(said).len() <= 400 ==> reported(said) == trimmed(said),
        trimmed(said).len() > 400 ==> reported(said).len() == 400,
{
    let whole = trimmed(said);
    assert(reported(said) =~= whole.subrange(0, reported(said).len() as int));
}

} // verus!
