//! Configuration of a composition: canvas, frame rate, comparison
//! mode, pause length, and the list of sources with their checkpoint
//! times.

use vstd::prelude::*;
use vstd::string::*;
use crate::time_codec::{
    find_from, first_index_of, lemma_first_index_characterize, parse_spec, parse_split_time,
};

verus! {

/// Comparison-overlay mode for tiles that finished a segment early.
#[derive(Debug, Copy, Clone, PartialEq, Eq, Structural)]
pub enum Compare {
    TimeLoss,
    TimeSave,
}

/// The encoders an output pipeline can be asked for.
#[derive(Debug, Copy, Clone, PartialEq, Eq, Structural)]
pub enum Encoder {
    X264,
    VAAPI,
    NVENC,
    AMF,
    QSV,
}

impl Encoder {
    /// Every encoder, in presentation order.
    pub fn all() -> (r: Vec<Encoder>)
        ensures
            r@ == seq![
                Encoder::X264,
                Encoder::VAAPI,
                Encoder::NVENC,
                Encoder::AMF,
                Encoder::QSV,
            ],
    {
        let r: Vec<Encoder> = vec![
            Encoder::X264,
            Encoder::VAAPI,
            Encoder::NVENC,
            Encoder::AMF,
            Encoder::QSV,
        ];
        proof {
            assert(r@ =~= seq![
                Encoder::X264,
                Encoder::VAAPI,
                Encoder::NVENC,
                Encoder::AMF,
                Encoder::QSV,
            ]);
        }
        r
    }

    /// The ffmpeg argument list of each encoder: flag-and-setting
    /// pairs, in order; none for the encoders that are not available.
    pub open spec fn args_spec(&self) -> Option<Seq<Seq<char>>> {
        match self {
            Encoder::X264 => Some(seq!["-c:v"@, "libx264"@, "-crf"@, "23"@]),
            Encoder::VAAPI => Some(
                seq![
                    "-vaapi_device"@,
                    "/dev/dri/renderD128"@,
                    "-vf"@,
                    "format=nv12,hwupload"@,
                    "-c:v"@,
                    "h264_vaapi"@,
                    "-qp"@,
                    "23"@,
                ],
            ),
            Encoder::NVENC => Some(seq!["-c:v"@, "h264_nvenc"@, "-qp"@, "23"@]),
            Encoder::AMF => None,
            Encoder::QSV => None,
        }
    }

    /// The encoder's ffmpeg arguments, to be appended to an encode
    /// command; none for the encoders that are not available.
    pub fn args(&self) -> (r: Option<Vec<&'static str>>)
        ensures
            r is Some <==> self.args_spec() is Some,
            r matches Some(v) ==> v@.map_values(|s: &'static str| s@) == self.args_spec()->Some_0,
    {
        let r: Option<Vec<&'static str>> = match self {
            Encoder::X264 => Some(vec!["-c:v", "libx264", "-crf", "23"]),
            Encoder::VAAPI => Some(
                vec![
                    "-vaapi_device",
                    "/dev/dri/renderD128",
                    "-vf",
                    "format=nv12,hwupload",
                    "-c:v",
                    "h264_vaapi",
                    "-qp",
                    "23",
                ],
            ),
            Encoder::NVENC => Some(vec!["-c:v", "h264_nvenc", "-qp", "23"]),
            Encoder::AMF => None,
            Encoder::QSV => None,
        };
        proof {
            if r is Some {
                assert(r->Some_0@.map_values(|s: &'static str| s@) =~= self.args_spec()->Some_0);
            }
        }
        r
    }

    /// The command-line name of the encoder.
    pub fn name(&self) -> (r: &'static str)
        ensures
            self is X264 ==> r@ == "x264"@,
            self is VAAPI ==> r@ == "vaapi"@,
            self is NVENC ==> r@ == "nvenc"@,
            self is AMF ==> r@ == "amf"@,
            self is QSV ==> r@ == "qsv"@,
    {
        match self {
            Encoder::X264 => "x264",
            Encoder::VAAPI => "vaapi",
            Encoder::NVENC => "nvenc",
            Encoder::AMF => "amf",
            Encoder::QSV => "qsv",
        }
    }
}

/// One source: the path of its video and its checkpoint times, in
/// whole milliseconds.
#[derive(Debug, Clone)]
pub struct Input {
    pub video_path: String,
    pub splits: Vec<u64>,
}

/// Failure while reading a split description.
#[derive(Debug, Copy, Clone, PartialEq, Eq, Structural)]
pub enum SplitError {
    /// A `split` line has no time after the keyword.
    MissingTime,
    /// The time after a `split` keyword is not a valid timestamp.
    InvalidTime,
}

/// The first space-separated token of a line.
pub open spec fn first_token(l: Seq<char>) -> Seq<char> {
    l.take(first_index_of(l, ' '))
}

/// The second space-separated token of a line, if the line has more
/// than one token.
pub open spec fn second_token(l: Seq<char>) -> Option<Seq<char>> {
    let k = first_index_of(l, ' ');
    if k == l.len() {
        None
    } else {
        let r = l.skip(k + 1);
        Some(r.take(first_index_of(r, ' ')))
    }
}

/// Prefixes an already-collected run of checkpoint times onto the
/// outcome for the remaining lines.
pub open spec fn with_prefix(pre: Seq<u64>, rest: Result<Seq<u64>, SplitError>) -> Result<
    Seq<u64>,
    SplitError,
> {
    match rest {
        Err(e) => Err(e),
        Ok(v) => Ok(pre + v),
    }
}

/// The checkpoint times denoted by split-description lines: one value
/// per line whose first token is `split`, in order. The first failing
/// split line, in line order, decides the error: one with no second
/// token is missing its time, one whose second token does not parse
/// carries an invalid one. Lines with any other first token carry no
/// meaning here.
pub open spec fn splits_of_lines(lines: Seq<Seq<char>>) -> Result<Seq<u64>, SplitError>
    decreases lines.len(),
{
    if lines.len() == 0 {
        Ok(Seq::empty())
    } else {
        let l = lines[0];
        let rest = splits_of_lines(lines.skip(1));
        if first_token(l) == "split"@ {
            match second_token(l) {
                None => Err(SplitError::MissingTime),
                Some(t) => match parse_spec(t) {
                    None => Err(SplitError::InvalidTime),
                    Some(v) => match rest {
                        Err(e) => Err(e),
                        Ok(vs) => Ok(seq![v] + vs),
                    },
                },
            }
        } else {
            rest
        }
    }
}

impl Input {
    /// A source with no checkpoints yet.
    pub fn new(video_path: String) -> (r: Input)
        ensures
            r.video_path == video_path,
            r.splits@ == Seq::<u64>::empty(),
    {
        Input { video_path, splits: Vec::new() }
    }

    /// Builds a source from split-description lines: each line
    /// `split <time>` adds one checkpoint; lines with other keywords
    /// are ignored.
    pub fn from_args(video_path: String, lines: &Vec<String>) -> (r: Result<Input, SplitError>)
        ensures
            r matches Ok(inp) ==> {
                &&& inp.video_path == video_path
                &&& splits_of_lines(lines@.map_values(|l: String| l@)) == Ok::<
                    Seq<u64>,
                    SplitError,
                >(inp.splits@)
            },
            r matches Err(e) ==> splits_of_lines(lines@.map_values(|l: String| l@)) == Err::<
                Seq<u64>,
                SplitError,
            >(e),
    {
        let ghost views = lines@.map_values(|l: String| l@);
        let ghost path_view = video_path;
        let mut res = Input::new(video_path);
        let mut i: usize = 0;
        proof {
            assert(views.skip(0) =~= views);
            if splits_of_lines(views) is Ok {
                let all = splits_of_lines(views)->Ok_0;
                assert(Seq::<u64>::empty() + all =~= all);
            }
        }
        while i < lines.len()
            invariant
                0 <= i <= lines@.len(),
                views == lines@.map_values(|l: String| l@),
                with_prefix(res.splits@, splits_of_lines(views.skip(i as int)))
                    == splits_of_lines(views),
                res.video_path == path_view,
            decreases lines@.len() - i,
        {
            let ghost tail = views.skip(i as int);
            proof {
                assert(tail[0] == views[i as int]);
                assert(views[i as int] == lines@[i as int]@);
                assert(tail.skip(1) =~= views.skip(i + 1));
            }
            let ln: &str = lines[i].as_str();
            let n = ln.unicode_len();
            let sp = find_from(ln, 0, ' ');
            proof {
                lemma_first_index_characterize(ln@, ' ', sp as int);
            }
            let is_split: bool = if sp == 5 {
                let c0 = ln.get_char(0);
                let c1 = ln.get_char(1);
                let c2 = ln.get_char(2);
                let c3 = ln.get_char(3);
                let c4 = ln.get_char(4);
                c0 == 's' && c1 == 'p' && c2 == 'l' && c3 == 'i' && c4 == 't'
            } else {
                false
            };
            proof {
                reveal_strlit("split");
                if is_split {
                    assert(first_token(ln@) =~= "split"@);
                } else {
                    if sp == 5 {
                        assert(first_token(ln@).len() == 5);
                        assert(forall|k: int| 0 <= k < 5 ==> first_token(ln@)[k] == ln@[k]);
                        assert(first_token(ln@) != "split"@);
                    } else {
                        assert(first_token(ln@).len() == sp as int);
                        assert(first_token(ln@) != "split"@);
                    }
                }
            }
            if is_split {
                if sp == n {
                    // the line is the bare keyword: no time follows
                    return Err(SplitError::MissingTime);
                }
                let ghost r_view = ln@.skip(sp + 1);
                let sp2 = find_from(ln, sp + 1, ' ');
                proof {
                    assert(forall|j: int| 0 <= j < sp2 - sp - 1 ==> r_view[j] == ln@[j + sp + 1]
                        && ln@[j + sp + 1] != ' ');
                    if sp2 < n {
                        assert(r_view[sp2 - sp - 1] == ln@[sp2 as int]);
                    }
                    lemma_first_index_characterize(r_view, ' ', sp2 - sp - 1);
                }
                let tstr = ln.substring_char(sp + 1, sp2);
                proof {
                    assert(tstr@ =~= r_view.take(sp2 - sp - 1));
                }
                match parse_split_time(tstr) {
                    Ok(v) => {
                        let ghost pre = res.splits@;
                        res.splits.push(v);
                        proof {
                            let rest = splits_of_lines(views.skip(i + 1));
                            assert(splits_of_lines(tail) == with_prefix(seq![v], rest));
                            if rest is Ok {
                                let vs = rest->Ok_0;
                                assert(pre.push(v) + vs =~= pre + (seq![v] + vs));
                            }
                        }
                    },
                    Err(_) => {
                        return Err(SplitError::InvalidTime);
                    },
                }
            }
            i += 1;
        }
        proof {
            assert(views.skip(views.len() as int) =~= Seq::<Seq<char>>::empty());
            if splits_of_lines(views) is Ok {
                assert(res.splits@ + Seq::<u64>::empty() =~= res.splits@);
            }
        }
        Ok(res)
    }
}

/// Composition settings: canvas size in pixels, frame rate, optional
/// comparison mode, pause length after each checkpoint in whole
/// milliseconds, and the sources.
#[derive(Debug, Clone)]
pub struct Config {
    pub width: u32,
    pub height: u32,
    pub fps: u32,
    pub cmp: Option<Compare>,
    pub pause: u64,
    pub inputs: Vec<Input>,
}

} // verus!
