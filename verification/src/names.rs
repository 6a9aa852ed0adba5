//! What the shell knows about call apps by name, and how it reads the
//! output of the helper commands it runs (`ps`, the window counter, the
//! microphone check).

use vstd::prelude::*;
use crate::text::{
    chars_eq, chars_of, parse_u32, parse_u32_range, split_by, split_ranges, string_of, substring,
    trim, trim_range, lemma_split_nonempty, Delim,
};

verus! {

/// The friendly name shown for a process name.
pub open spec fn display_name(process: Seq<char>) -> Seq<char> {
    if process == "zoom.us"@ {
        "Zoom"@
    } else if process == "Microsoft Teams"@ || process == "Microsoft Teams (work or school)"@
        || process == "MSTeams"@ {
        "Teams"@
    } else {
        process
    }
}

/// The app names whose meeting windows can be counted.
pub open spec fn window_detectable(app: Seq<char>) -> bool {
    ||| app == "Microsoft Teams"@
    ||| app == "Microsoft Teams (work or school)"@
    ||| app == "MSTeams"@
    ||| app == "Teams"@
    ||| app == "zoom.us"@
    ||| app == "Zoom"@
    ||| app == "FaceTime"@
    ||| app == "Slack"@
}

/// Which app's windows a window count looks at.
#[derive(Clone, Copy, Debug, PartialEq, Eq)]
pub enum WindowProbe {
    /// Microsoft Teams, under either of its process names.
    Teams,
    /// The `zoom.us` process.
    Zoom,
    /// The `FaceTime` process.
    FaceTime,
    /// The `Slack` process.
    Slack,
}

/// The window count to take for an app name, if there is one.
pub open spec fn window_probe(app: Seq<char>) -> Option<WindowProbe> {
    if app == "Microsoft Teams"@ || app == "Microsoft Teams (work or school)"@ || app
        == "MSTeams"@ || app == "Teams"@ {
        Some(WindowProbe::Teams)
    } else if app == "zoom.us"@ || app == "Zoom"@ {
        Some(WindowProbe::Zoom)
    } else if app == "FaceTime"@ {
        Some(WindowProbe::FaceTime)
    } else if app == "Slack"@ {
        Some(WindowProbe::Slack)
    } else {
        None
    }
}

/// Whether the characters `v` are exactly those of `lit`.
fn is_literal(v: &Vec<char>, lit: &str) -> (r: bool)
    ensures
        r == (v@ == lit@),
{
    let w = chars_of(lit);
    chars_eq(v, &w)
}

/// Friendly display name for a process name.
pub fn display_name_for(process: &str) -> (r: String)
    ensures
        r@ == display_name(process@),
{
    let v = chars_of(process);
    if is_literal(&v, "zoom.us") {
        string_of("Zoom")
    } else if is_literal(&v, "Microsoft Teams") || is_literal(&v, "Microsoft Teams (work or school)")
        || is_literal(&v, "MSTeams") {
        string_of("Teams")
    } else {
        string_of(process)
    }
}

/// Whether there is a window-based way to tell that this app's meeting ended.
pub fn has_window_detection(app_name: &str) -> (r: bool)
    ensures
        r == window_detectable(app_name@),
{
    let v = chars_of(app_name);
    is_literal(&v, "Microsoft Teams") || is_literal(&v, "Microsoft Teams (work or school)")
        || is_literal(&v, "MSTeams") || is_literal(&v, "Teams") || is_literal(&v, "zoom.us")
        || is_literal(&v, "Zoom") || is_literal(&v, "FaceTime") || is_literal(&v, "Slack")
}

/// The window count to take for an app, or `None` for an app whose
/// windows are not counted.
pub fn window_count_probe(app_name: &str) -> (r: Option<WindowProbe>)
    ensures
        r == window_probe(app_name@),
{
    let v = chars_of(app_name);
    if is_literal(&v, "Microsoft Teams") || is_literal(&v, "Microsoft Teams (work or school)")
        || is_literal(&v, "MSTeams") || is_literal(&v, "Teams") {
        Some(WindowProbe::Teams)
    } else if is_literal(&v, "zoom.us") || is_literal(&v, "Zoom") {
        Some(WindowProbe::Zoom)
    } else if is_literal(&v, "FaceTime") {
        Some(WindowProbe::FaceTime)
    } else if is_literal(&v, "Slack") {
        Some(WindowProbe::Slack)
    } else {
        None
    }
}

/// The window count that stands for a failed count: it is the largest, so
/// it never looks like a drop, and it never becomes the baseline.
pub const FAILED_WINDOW_COUNT: u32 = 0xffff_ffff;

/// The window count that a run of the window counter reports: its output,
/// trimmed and read as a `u32`; `u32::MAX` when the run failed (`None`) or
/// the output is not a number (`FAILED_WINDOW_COUNT`).
pub open spec fn window_count_of(output: Option<Seq<char>>) -> u32 {
    match output {
        Some(out) => match parse_u32(trim(out)) {
            Some(n) => n,
            None => FAILED_WINDOW_COUNT,
        },
        None => FAILED_WINDOW_COUNT,
    }
}

/// Reads the window counter's output; `None` stands for a failed run.
pub fn window_count_from_output(output: Option<&str>) -> (r: u32)
    ensures
        r == window_count_of(
            match output {
                Some(s) => Some(s@),
                None => None,
            },
        ),
{
    match output {
        None => FAILED_WINDOW_COUNT,
        Some(s) => {
            let v = chars_of(s);
            let (a, b) = trim_range(&v, 0, v.len());
            assert(v@.subrange(0, v.len() as int) =~= v@);
            match parse_u32_range(&v, a, b) {
                Some(n) => n,
                None => FAILED_WINDOW_COUNT,
            }
        },
    }
}

/// Whether the microphone check printed `1` (white space aside).
pub fn mic_output_active(output: &str) -> (r: bool)
    ensures
        r == (trim(output@) == seq!['1']),
{
    let v = chars_of(output);
    let (a, b) = trim_range(&v, 0, v.len());
    assert(v@.subrange(0, v.len() as int) =~= v@);
    let ghost t = v@.subrange(a as int, b as int);
    assert(t == trim(output@));
    if b - a == 1 && v[a] == '1' {
        assert(t =~= seq!['1']);
        true
    } else {
        if b - a == 1 {
            assert(t[0] != seq!['1'][0]);
        } else {
            assert(t.len() != seq!['1'].len());
        }
        assert(t != seq!['1']);
        false
    }
}

/// The binary names in `ps` output lines: each non-blank line, trimmed,
/// cut after its last `/`.
pub open spec fn process_names_of(lines: Seq<Seq<char>>) -> Seq<Seq<char>>
    decreases lines.len(),
{
    if lines.len() == 0 {
        seq![]
    } else {
        let r = process_names_of(lines.drop_last());
        let t = trim(lines.last());
        if t.len() == 0 {
            r
        } else {
            r.push(split_by(t, Delim::Char('/')).last())
        }
    }
}

/// The binary names listed in the output of `ps -eo comm=`.
pub open spec fn process_names(output: Seq<char>) -> Seq<Seq<char>> {
    process_names_of(split_by(output, Delim::Char('\n')))
}

/// Extracts the running binaries' names from `ps -eo comm=` output, which
/// lists full paths such as `/Applications/zoom.us.app/Contents/MacOS/zoom.us`.
pub fn parse_process_names(output: &str) -> (r: Vec<String>)
    ensures
        r.len() == process_names(output@).len(),
        forall|i: int| 0 <= i < r.len() ==> (#[trigger] r[i])@ == process_names(output@)[i],
{
    let v = chars_of(output);
    let lines = split_ranges(&v, 0, v.len(), Delim::Char('\n'));
    let ghost all = split_by(v@.subrange(0, v.len() as int), Delim::Char('\n'));
    assert(v@.subrange(0, v.len() as int) =~= output@);
    let mut r: Vec<String> = Vec::new();
    let mut k: usize = 0;
    while k < lines.len()
        invariant
            v@ == output@,
            all == split_by(output@, Delim::Char('\n')),
            lines.len() == all.len(),
            forall|m: int|
                0 <= m < lines.len() ==> {
                    &&& 0 <= (#[trigger] lines[m]).0 <= lines[m].1 <= v.len()
                    &&& v@.subrange(lines[m].0 as int, lines[m].1 as int) == all[m]
                },
            k <= lines.len(),
            r.len() == process_names_of(all.take(k as int)).len(),
            forall|i: int|
                0 <= i < r.len() ==> (#[trigger] r[i])@ == process_names_of(all.take(k as int))[i],
        decreases lines.len() - k,
    {
        let (lo, hi) = lines[k];
        let (a, b) = trim_range(&v, lo, hi);
        assert(all.take(k + 1).drop_last() =~= all.take(k as int));
        assert(all.take(k + 1).last() == all[k as int]);
        if a < b {
            let pieces = split_ranges(&v, a, b, Delim::Char('/'));
            proof {
                lemma_split_nonempty(v@.subrange(a as int, b as int), Delim::Char('/'));
            }
            let (p, q) = pieces[pieces.len() - 1];
            let name = substring(output, p, q);
            let ghost before = r@;
            r.push(name);
            assert forall|i: int| 0 <= i < r.len() implies (#[trigger] r[i])@
                == process_names_of(all.take(k + 1))[i] by {
                if i < before.len() {
                    assert(r[i] == before[i]);
                }
            }
        }
        k = k + 1;
    }
    assert(all.take(lines.len() as int) =~= all);
    r
}

/// An app has a window count to take exactly when it has window-based
/// meeting-end detection.
pub proof fn law_probe_iff_window_detection(app: Seq<char>)
    ensures
        window_probe(app) is Some <==> window_detectable(app),
{
}

/// The app names the shell knows are all different.
proof fn lemma_known_names_distinct()
    ensures
        "Microsoft Teams"@ != "Microsoft Teams (work or school)"@,
        "Microsoft Teams"@ != "MSTeams"@,
        "Microsoft Teams"@ != "Teams"@,
        "Microsoft Teams"@ != "zoom.us"@,
        "Microsoft Teams"@ != "Zoom"@,
        "Microsoft Teams"@ != "FaceTime"@,
        "Microsoft Teams"@ != "Slack"@,
        "Microsoft Teams (work or school)"@ != "MSTeams"@,
        "Microsoft Teams (work or school)"@ != "Teams"@,
        "Microsoft Teams (work or school)"@ != "zoom.us"@,
        "Microsoft Teams (work or school)"@ != "Zoom"@,
        "Microsoft Teams (work or school)"@ != "FaceTime"@,
        "Microsoft Teams (work or school)"@ != "Slack"@,
        "MSTeams"@ != "Teams"@,
        "MSTeams"@ != "zoom.us"@,
        "MSTeams"@ != "Zoom"@,
        "MSTeams"@ != "FaceTime"@,
        "MSTeams"@ != "Slack"@,
        "Teams"@ != "zoom.us"@,
        "Teams"@ != "Zoom"@,
        "Teams"@ != "FaceTime"@,
        "Teams"@ != "Slack"@,
        "zoom.us"@ != "Zoom"@,
        "zoom.us"@ != "FaceTime"@,
        "zoom.us"@ != "Slack"@,
        "Zoom"@ != "FaceTime"@,
        "Zoom"@ != "Slack"@,
        "FaceTime"@ != "Slack"@,
{
    reveal_strlit("Microsoft Teams");
    reveal_strlit("Microsoft Teams (work or school)");
    reveal_strlit("MSTeams");
    reveal_strlit("Teams");
    reveal_strlit("zoom.us");
    reveal_strlit("Zoom");
    reveal_strlit("FaceTime");
    reveal_strlit("Slack");
    assert("Microsoft Teams"@.len() != "Microsoft Teams (work or school)"@.len());
    assert("Microsoft Teams"@.len() != "MSTeams"@.len());
    assert("Microsoft Teams"@.len() != "Teams"@.len());
    assert("Microsoft Teams"@.len() != "zoom.us"@.len());
    assert("Microsoft Teams"@.len() != "Zoom"@.len());
    assert("Microsoft Teams"@.len() != "FaceTime"@.len());
    assert("Microsoft Teams"@.len() != "Slack"@.len());
    assert("Microsoft Teams (work or school)"@.len() != "MSTeams"@.len());
    assert("Microsoft Teams (work or school)"@.len() != "Teams"@.len());
    assert("Microsoft Teams (work or school)"@.len() != "zoom.us"@.len());
    assert("Microsoft Teams (work or school)"@.len() != "Zoom"@.len());
    assert("Microsoft Teams (work or school)"@.len() != "FaceTime"@.len());
    assert("Microsoft Teams (work or school)"@.len() != "Slack"@.len());
    assert("MSTeams"@.len() != "Teams"@.len());
    assert("MSTeams"@[0] != "zoom.us"@[0]);
    assert("MSTeams"@.len() != "Zoom"@.len());
    assert("MSTeams"@.len() != "FaceTime"@.len());
    assert("MSTeams"@.len() != "Slack"@.len());
    assert("Teams"@.len() != "zoom.us"@.len());
    assert("Teams"@.len() != "Zoom"@.len());
    assert("Teams"@.len() != "FaceTime"@.len());
    assert("Teams"@[0] != "Slack"@[0]);
    assert("zoom.us"@.len() != "Zoom"@.len());
    assert("zoom.us"@.len() != "FaceTime"@.len());
    assert("zoom.us"@.len() != "Slack"@.len());
    assert("Zoom"@.len() != "FaceTime"@.len());
    assert("Zoom"@.len() != "Slack"@.len());
    assert("FaceTime"@.len() != "Slack"@.len());
}

/// The apps with window-based meeting-end detection are exactly the Teams
/// names (classic, new, and its short names), Zoom's two names, FaceTime
/// and Slack; each Teams name counts Teams windows, each Zoom name Zoom
/// windows.
pub proof fn law_window_detectable_apps(app: Seq<char>)
    ensures
        window_detectable(app) <==> (app == "Microsoft Teams"@ || app
            == "Microsoft Teams (work or school)"@ || app == "MSTeams"@ || app == "Teams"@ || app
            == "zoom.us"@ || app == "Zoom"@ || app == "FaceTime"@ || app == "Slack"@),
        (app == "Microsoft Teams"@ || app == "Microsoft Teams (work or school)"@ || app
            == "MSTeams"@ || app == "Teams"@) ==> window_probe(app) == Some(WindowProbe::Teams),
        (app == "zoom.us"@ || app == "Zoom"@) ==> window_probe(app) == Some(WindowProbe::Zoom),
        app == "FaceTime"@ ==> window_probe(app) == Some(WindowProbe::FaceTime),
        app == "Slack"@ ==> window_probe(app) == Some(WindowProbe::Slack),
{
    lemma_known_names_distinct();
}

/// Every app shown as Teams has its meeting end detected by counting Teams
/// windows, and every app shown as Zoom by counting Zoom windows.
pub proof fn law_display_name_matches_window_probe(app: Seq<char>)
    ensures
        display_name(app) == "Teams"@ ==> window_detectable(app) && window_probe(app) == Some(
            WindowProbe::Teams,
        ),
        display_name(app) == "Zoom"@ ==> window_detectable(app) && window_probe(app) == Some(
            WindowProbe::Zoom,
        ),
{
    lemma_known_names_distinct();
    reveal_strlit("Zoom");
    reveal_strlit("Teams");
    assert("Zoom"@.len() != "Teams"@.len());
}

} // verus!
