//! Reading what the audio downloader (yt-dlp) printed: the message of a failed run, and
//! the file a successful run says it wrote.
use vstd::prelude::*;
use crate::playground::{line_split, strip_carriage_return, text_lines, trim_start};
use crate::paths::{joined_path, path_join};
use crate::text::{chars_of, char_is_white_space, concat, is_white_space, string_from_chars};

verus! {

/// `s` without its trailing white space.
pub open spec fn trim_end(s: Seq<char>) -> Seq<char>
    decreases s.len(),
{
    if s.len() > 0 && is_white_space(s.last()) {
        trim_end(s.drop_last())
    } else {
        s
    }
}

/// `s` without white space at either end, as `str::trim` gives it.
pub open spec fn trimmed(s: Seq<char>) -> Seq<char> {
    trim_end(trim_start(s))
}

/// The prefix of the line in which the downloader names the file it wrote.
pub open spec fn destination_marker() -> Seq<char> {
    "[ExtractAudio] Destination: "@
}

/// The message of a failed download: the downloader's error output, trimmed, or its
/// standard output, trimmed, when the error output is blank.
pub open spec fn failure_message(stdout: Seq<char>, stderr: Seq<char>) -> Seq<char> {
    "yt-dlp failed: "@ + if trimmed(stderr).len() == 0 {
        trimmed(stdout)
    } else {
        trimmed(stderr)
    }
}

/// The rest, trimmed, of the first line whose trimmed text starts with the destination
/// marker; nothing when no line does.
pub open spec fn first_destination(lines: Seq<Seq<char>>) -> Option<Seq<char>>
    decreases lines.len(),
{
    if lines.len() == 0 {
        None
    } else {
        let t = trimmed(lines[0]);
        let m = destination_marker();
        if t.len() >= m.len() && t.take(m.len() as int) == m {
            Some(trimmed(t.skip(m.len() as int)))
        } else {
            first_destination(lines.skip(1))
        }
    }
}

/// The characters of `v` without white space at either end.
fn trim_chars(v: &Vec<char>) -> (r: Vec<char>)
    ensures
        r@ == trimmed(v@),
{
    let n = v.len();
    let mut i: usize = 0;
    assert(v@.skip(0) =~= v@);
    while i < n && char_is_white_space(v[i])
        invariant
            i <= n,
            n == v@.len(),
            trim_start(v@) == trim_start(v@.skip(i as int)),
        decreases n - i,
    {
        proof {
            assert(v@.skip(i as int).drop_first() =~= v@.skip(i + 1));
        }
        i = i + 1;
    }
    proof {
        if i < n {
            assert(v@.skip(i as int)[0] == v@[i as int]);
        } else {
            assert(v@.skip(i as int).len() == 0);
        }
        assert(trim_start(v@) == v@.skip(i as int));
        assert(v@.skip(i as int) =~= v@.subrange(i as int, n as int));
    }
    let mut j: usize = n;
    while j > i && char_is_white_space(v[j - 1])
        invariant
            i <= j <= n,
            n == v@.len(),
            trim_start(v@) == v@.subrange(i as int, n as int),
            trim_end(v@.subrange(i as int, n as int)) == trim_end(v@.subrange(i as int, j as int)),
        decreases j - i,
    {
        proof {
            assert(v@.subrange(i as int, j as int).drop_last() =~= v@.subrange(i as int, j - 1));
            assert(v@.subrange(i as int, j as int).last() == v@[j - 1]);
        }
        j = j - 1;
    }
    proof {
        if j > i {
            assert(v@.subrange(i as int, j as int).last() == v@[j - 1]);
        }
        assert(trim_end(v@.subrange(i as int, j as int)) == v@.subrange(i as int, j as int));
    }
    let mut r: Vec<char> = Vec::new();
    let mut k: usize = i;
    while k < j
        invariant
            i <= k <= j <= n,
            n == v@.len(),
            r@ == v@.subrange(i as int, k as int),
        decreases j - k,
    {
        r.push(v[k]);
        proof {
            assert(v@.subrange(i as int, k + 1) =~= v@.subrange(i as int, k as int).push(v@[k as int]));
        }
        k = k + 1;
    }
    r
}

/// The lines of a text, as `str::lines` gives them.
fn lines_of(s: &str) -> (lines: Vec<Vec<char>>)
    ensures
        lines@.map_values(|l: Vec<char>| l@) == text_lines(s@),
{
    let cs = chars_of(s);
    let mut lines: Vec<Vec<char>> = Vec::new();
    let mut cur: Vec<char> = Vec::new();
    let mut i: usize = 0;
    while i < cs.len()
        invariant
            i <= cs@.len(),
            cs@ == s@,
            lines@.map_values(|l: Vec<char>| l@) == line_split(cs@.take(i as int)).0,
            cur@ == line_split(cs@.take(i as int)).1,
        decreases cs.len() - i,
    {
        let c = cs[i];
        proof {
            assert(cs@.take(i + 1).drop_last() =~= cs@.take(i as int));
            assert(cs@.take(i + 1).last() == c);
        }
        if c == '\n' {
            let len = cur.len();
            if len > 0 && cur[len - 1] == '\r' {
                cur.pop();
            }
            assert(cur@ == strip_carriage_return(line_split(cs@.take(i as int)).1));
            let ghost before = lines@;
            lines.push(cur);
            proof {
                assert(lines@.map_values(|l: Vec<char>| l@) =~= before.map_values(|l: Vec<char>| l@).push(
                    lines@.last()@,
                ));
            }
            cur = Vec::new();
        } else {
            cur.push(c);
        }
        i = i + 1;
    }
    proof {
        assert(cs@.take(cs@.len() as int) =~= cs@);
    }
    if cur.len() > 0 {
        let ghost before = lines@;
        lines.push(cur);
        proof {
            assert(lines@.map_values(|l: Vec<char>| l@) =~= before.map_values(|l: Vec<char>| l@).push(
                lines@.last()@,
            ));
        }
    }
    lines
}

/// The message of a failed download, from what the downloader printed.
pub fn ytdlp_failure_message(stdout: &str, stderr: &str) -> (m: String)
    ensures
        m@ == failure_message(stdout@, stderr@),
{
    let err = trim_chars(&chars_of(stderr));
    let text = if err.len() == 0 {
        trim_chars(&chars_of(stdout))
    } else {
        err
    };
    let rest = string_from_chars(text.as_slice());
    concat("yt-dlp failed: ", rest.as_str())
}

/// Whether `t` starts with the destination marker.
fn has_marker(t: &Vec<char>) -> (b: bool)
    ensures
        b == (t@.len() >= destination_marker().len() && t@.take(destination_marker().len() as int)
            == destination_marker()),
{
    let m = chars_of("[ExtractAudio] Destination: ");
    if t.len() < m.len() {
        return false;
    }
    let mut k: usize = 0;
    while k < m.len()
        invariant
            k <= m@.len() <= t@.len(),
            m@ == destination_marker(),
            forall|q: int| 0 <= q < k ==> t@[q] == m@[q],
        decreases m.len() - k,
    {
        if t[k] != m[k] {
            assert(t@.take(m@.len() as int)[k as int] != m@[k as int]);
            return false;
        }
        k = k + 1;
    }
    assert(t@.take(m@.len() as int) =~= m@);
    true
}

/// The file a download wrote, as the downloader reports it: the rest, trimmed, of the
/// first line (of its standard output, then of its error output) whose trimmed text starts
/// with the destination marker; nothing when no line does.
pub fn ytdlp_destination(stdout: &str, stderr: &str) -> (d: Option<String>)
    ensures
        match d {
            Some(p) => first_destination(text_lines(stdout@) + text_lines(stderr@)) == Some(p@),
            None => first_destination(text_lines(stdout@) + text_lines(stderr@)) is None,
        },
{
    let mut lines = lines_of(stdout);
    let mut more = lines_of(stderr);
    let ghost all = text_lines(stdout@) + text_lines(stderr@);
    let ghost base = lines@;
    let ghost extra = more@;
    lines.append(&mut more);
    proof {
        assert(lines@ == base + extra);
        assert(lines@.map_values(|l: Vec<char>| l@) =~= all);
    }
    let ghost lv = lines@.map_values(|l: Vec<char>| l@);
    let mut i: usize = 0;
    assert(lv.skip(0) =~= lv);
    while i < lines.len()
        invariant
            i <= lines@.len(),
            lv == lines@.map_values(|l: Vec<char>| l@),
            lv == all,
            all == text_lines(stdout@) + text_lines(stderr@),
            first_destination(all) == first_destination(lv.skip(i as int)),
        decreases lines.len() - i,
    {
        let t = trim_chars(&lines[i]);
        proof {
            assert(lv.skip(i as int)[0] == lines@[i as int]@);
        }
        if has_marker(&t) {
            proof {
                reveal_strlit("[ExtractAudio] Destination: ");
            }
            let cs = t.len();
            let rest_chars = {
                let mut r: Vec<char> = Vec::new();
                let mut q: usize = 28;
                while q < cs
                    invariant
                        28 <= q <= cs,
                        cs == t@.len(),
                        r@ == t@.subrange(28, q as int),
                    decreases cs - q,
                {
                    r.push(t[q]);
                    proof {
                        assert(t@.subrange(28, q + 1) =~= t@.subrange(28, q as int).push(t@[q as int]));
                    }
                    q = q + 1;
                }
                r
            };
            proof {
                assert(rest_chars@ =~= t@.skip(destination_marker().len() as int));
            }
            let rest = trim_chars(&rest_chars);
            let found = string_from_chars(rest.as_slice());
            proof {
                let l0 = lv.skip(i as int)[0];
                assert(l0 == lines@[i as int]@);
                assert(trimmed(l0) == t@);
                assert(first_destination(lv.skip(i as int)) == Some(trimmed(t@.skip(destination_marker().len() as int))));
                assert(found@ == rest@);
            }
            return Some(found);
        }
        proof {
            assert(lv.skip(i as int).skip(1) =~= lv.skip(i + 1));
        }
        i = i + 1;
    }
    proof {
        assert(lv.skip(i as int).len() == 0);
    }
    None
}

/// The program that runs the downloader.
pub const YTDLP_LAUNCHER: &'static str = "uv";

/// Where the downloader writes a song: a file named after the video's title, with the
/// extension of the audio it extracted, in the music folder.
pub open spec fn output_template(music_dir: Seq<char>) -> Seq<char> {
    joined_path(music_dir, "%(title)s.%(ext)s"@)
}

/// The arguments of the launcher for downloading the audio of `url` into `music_dir` as
/// Opus, with the metadata embedded.
pub open spec fn ytdlp_arg_list(url: Seq<char>, music_dir: Seq<char>) -> Seq<Seq<char>> {
    seq![
        "run"@,
        "yt-dlp"@,
        "--extract-audio"@,
        "--audio-format"@,
        "opus"@,
        "--embed-metadata"@,
        "--output"@,
        output_template(music_dir),
        url,
    ]
}

/// The arguments the launcher is run with to download the audio of `url` into
/// `music_dir`.
pub fn ytdlp_args(url: &str, music_dir: &str) -> (args: Vec<String>)
    ensures
        args@.map_values(|a: String| a@) == ytdlp_arg_list(url@, music_dir@),
{
    let mut args: Vec<String> = Vec::new();
    args.push(String::from_str("run"));
    args.push(String::from_str("yt-dlp"));
    args.push(String::from_str("--extract-audio"));
    args.push(String::from_str("--audio-format"));
    args.push(String::from_str("opus"));
    args.push(String::from_str("--embed-metadata"));
    args.push(String::from_str("--output"));
    args.push(path_join(music_dir, "%(title)s.%(ext)s"));
    args.push(String::from_str(url));
    assert(args@.map_values(|a: String| a@) =~= ytdlp_arg_list(url@, music_dir@));
    args
}

/// Whether a file extension is `opus`, in any mix of upper and lower case.
pub open spec fn is_opus_extension(e: Seq<char>) -> bool {
    &&& e.len() == 4
    &&& (e[0] == 'o' || e[0] == 'O')
    &&& (e[1] == 'p' || e[1] == 'P')
    &&& (e[2] == 'u' || e[2] == 'U')
    &&& (e[3] == 's' || e[3] == 'S')
}

/// Whether a file, given by its extension, is an Opus file.
pub open spec fn is_opus_file(extension: Option<String>) -> bool {
    extension matches Some(e) && is_opus_extension(e@)
}

/// Whether modification time `a` comes no later than `b`, a missing time coming first.
pub open spec fn not_later(a: Option<u128>, b: Option<u128>) -> bool {
    match (a, b) {
        (None, _) => true,
        (Some(_), None) => false,
        (Some(x), Some(y)) => x <= y,
    }
}

/// Position of the Opus file the downloader most likely wrote, among files given by path,
/// extension and modification time: the Opus file with the latest time, the last one
/// listed among equally late ones; nothing when there is no Opus file.
pub open spec fn latest_opus_position(files: Seq<(String, Option<String>, Option<u128>)>) -> Option<int>
    decreases files.len(),
{
    if files.len() == 0 {
        None
    } else {
        let before = latest_opus_position(files.drop_last());
        let last = files.last();
        if is_opus_file(last.1) && (match before {
            None => true,
            Some(b) => not_later(files[b].2, last.2),
        }) {
            Some(files.len() - 1)
        } else {
            before
        }
    }
}

/// Whether a file extension is `opus`, in any case.
fn opus_extension(extension: &Option<String>) -> (b: bool)
    ensures
        b == is_opus_file(*extension),
{
    match extension {
        None => false,
        Some(e) => {
            let cs = chars_of(e.as_str());
            cs.len() == 4 && (cs[0] == 'o' || cs[0] == 'O') && (cs[1] == 'p' || cs[1] == 'P') && (
            cs[2] == 'u' || cs[2] == 'U') && (cs[3] == 's' || cs[3] == 'S')
        },
    }
}

/// The path of the Opus file the downloader most likely wrote, when its output named
/// none: among the files of the music folder, given by path, extension and modification
/// time, the Opus file with the latest time (the last listed among equally late ones).
pub fn latest_opus(files: &Vec<(String, Option<String>, Option<u128>)>) -> (path: Option<String>)
    ensures
        match latest_opus_position(files@) {
            None => path is None,
            Some(i) => path matches Some(p) && p@ == files@[i].0@,
        },
{
    let mut best: Option<usize> = None;
    let mut i: usize = 0;
    while i < files.len()
        invariant
            i <= files@.len(),
            match best {
                None => latest_opus_position(files@.take(i as int)) is None,
                Some(b) => latest_opus_position(files@.take(i as int)) == Some(b as int) && b < i,
            },
        decreases files.len() - i,
    {
        proof {
            assert(files@.take(i + 1).drop_last() =~= files@.take(i as int));
            assert(files@.take(i + 1).last() == files@[i as int]);
            if let Some(b) = best {
                assert(files@.take(i + 1)[b as int] == files@[b as int]);
            }
        }
        if opus_extension(&files[i].1) {
            let later = match best {
                None => true,
                Some(b) => match (files[b].2, files[i].2) {
                    (None, _) => true,
                    (Some(_), None) => false,
                    (Some(x), Some(y)) => x <= y,
                },
            };
            if later {
                best = Some(i);
            }
        }
        i = i + 1;
    }
    proof {
        assert(files@.take(files@.len() as int) =~= files@);
    }
    match best {
        None => None,
        Some(b) => Some(files[b].0.clone()),
    }
}

} // verus!
