//! The command line: what the arguments of each command mean.
//!
//! Numbers in arguments are kept as texts; the caller reads them.

use crate::text::{same_text, text_of};
use vstd::prelude::*;
use vstd::string::StrSliceExecFns;

verus! {

/// The texts of arguments.
pub open spec fn words(args: Seq<String>) -> Seq<Seq<char>> {
    Seq::new(args.len(), |i: int| args[i]@)
}

/// What follows `prefix` in `s`, if `s` begins with it.
pub open spec fn after_prefix(s: Seq<char>, prefix: Seq<char>) -> Option<Seq<char>> {
    if prefix.len() <= s.len() && s.subrange(0, prefix.len() as int) == prefix {
        Some(s.subrange(prefix.len() as int, s.len() as int))
    } else {
        None
    }
}

fn strip_prefix(s: &str, prefix: &str) -> (r: Option<String>)
    ensures
        match r {
            Some(t) => after_prefix(s@, prefix@) == Some(t@),
            None => after_prefix(s@, prefix@) is None,
        },
{
    let n: usize = s.unicode_len();
    let k: usize = prefix.unicode_len();
    if n < k || !same_text(s.substring_char(0, k), prefix) {
        return None;
    }
    Some(text_of(s.substring_char(k, n)))
}

/// The speed that was asked for.
#[derive(Debug, PartialEq, Eq)]
pub enum Rate {
    /// As fast as possible.
    Unlimited,
    /// In real time.
    RealTime,
    /// The number that the text gives; as fast as possible if it is none.
    Text(String),
}

/// The arguments of `play`.
#[derive(Debug, PartialEq, Eq)]
pub struct PlayArgs {
    pub file: Option<String>,
    pub rate: Rate,
    pub loop_: bool,
    pub as_json: bool,
    pub show: Option<String>,
    pub seek: Option<String>,
    pub seek_ratio: Option<String>,
}

/// What a [`Rate`] says.
pub enum RateView {
    Unlimited,
    RealTime,
    Text(Seq<char>),
}

/// What [`PlayArgs`] say.
#[verifier::ext_equal]
pub struct PlayArgsView {
    pub file: Option<Seq<char>>,
    pub rate: RateView,
    pub loop_: bool,
    pub as_json: bool,
    pub show: Option<Seq<char>>,
    pub seek: Option<Seq<char>>,
    pub seek_ratio: Option<Seq<char>>,
}

pub open spec fn text_view(t: Option<String>) -> Option<Seq<char>> {
    match t {
        Some(s) => Some(s@),
        None => None,
    }
}

impl View for PlayArgs {
    type V = PlayArgsView;

    open spec fn view(&self) -> PlayArgsView {
        PlayArgsView {
            file: text_view(self.file),
            rate: match self.rate {
                Rate::Unlimited => RateView::Unlimited,
                Rate::RealTime => RateView::RealTime,
                Rate::Text(s) => RateView::Text(s@),
            },
            loop_: self.loop_,
            as_json: self.as_json,
            show: text_view(self.show),
            seek: text_view(self.seek),
            seek_ratio: text_view(self.seek_ratio),
        }
    }
}

/// What one or two arguments of `play` ask for.
pub enum Setting {
    File(Seq<char>),
    Rate(RateView),
    Loop,
    Json,
    Show(Seq<char>),
    Seek(Seq<char>),
    SeekRatio(Seq<char>),
    Unknown(Seq<char>),
}

/// What the argument at `i` asks for, and how many arguments that takes. A value stands behind an
/// equals sign or in the next argument; `--rate` without a value asks for no limit.
pub open spec fn setting_at(args: Seq<Seq<char>>, i: int) -> (Setting, int) {
    let a = args[i];
    let next = if i + 1 < args.len() {
        Some(args[i + 1])
    } else {
        None
    };
    if a == "--rate"@ {
        (
            Setting::Rate(
                match next {
                    Some(v) => RateView::Text(v),
                    None => RateView::Unlimited,
                },
            ),
            2,
        )
    } else if let Some(v) = after_prefix(a, "--rate="@) {
        (Setting::Rate(RateView::Text(v)), 1)
    } else if a == "--seek"@ && next is Some {
        (Setting::Seek(next->Some_0), 2)
    } else if let Some(v) = after_prefix(a, "--seek="@) {
        (Setting::Seek(v), 1)
    } else if a == "--seek-ratio"@ && next is Some {
        (Setting::SeekRatio(next->Some_0), 2)
    } else if let Some(v) = after_prefix(a, "--seek-ratio="@) {
        (Setting::SeekRatio(v), 1)
    } else if a == "--show"@ && next is Some {
        (Setting::Show(next->Some_0), 2)
    } else if let Some(v) = after_prefix(a, "--show="@) {
        (Setting::Show(v), 1)
    } else if a == "--loop"@ {
        (Setting::Loop, 1)
    } else if a == "--json"@ {
        (Setting::Json, 1)
    } else if a == "--paced"@ {
        (Setting::Rate(RateView::RealTime), 1)
    } else if after_prefix(a, "--"@) is None {
        (Setting::File(a), 1)
    } else {
        (Setting::Unknown(a), 1)
    }
}

/// `v` with a setting made. A later setting replaces an earlier one.
pub open spec fn with_setting(v: PlayArgsView, s: Setting) -> PlayArgsView {
    match s {
        Setting::File(t) => PlayArgsView { file: Some(t), ..v },
        Setting::Rate(r) => PlayArgsView { rate: r, ..v },
        Setting::Loop => PlayArgsView { loop_: true, ..v },
        Setting::Json => PlayArgsView { as_json: true, ..v },
        Setting::Show(t) => PlayArgsView { show: Some(t), ..v },
        Setting::Seek(t) => PlayArgsView { seek: Some(t), ..v },
        Setting::SeekRatio(t) => PlayArgsView { seek_ratio: Some(t), ..v },
        Setting::Unknown(_) => v,
    }
}

/// The settings from argument `i` on, made on `v`, or the first argument that asks for nothing
/// known.
pub open spec fn settings_from(args: Seq<Seq<char>>, i: int, v: PlayArgsView) -> Result<
    PlayArgsView,
    Seq<char>,
>
    decreases
        if i < args.len() {
            args.len() - i
        } else {
            0
        },
{
    if i >= args.len() {
        Ok(v)
    } else {
        let (s, n) = setting_at(args, i);
        if let Setting::Unknown(a) = s {
            Err(a)
        } else if n == 2 {
            settings_from(args, i + 2, with_setting(v, s))
        } else {
            settings_from(args, i + 1, with_setting(v, s))
        }
    }
}

/// What `play` does without arguments.
pub open spec fn no_settings() -> PlayArgsView {
    PlayArgsView {
        file: None,
        rate: RateView::Unlimited,
        loop_: false,
        as_json: false,
        show: None,
        seek: None,
        seek_ratio: None,
    }
}

/// Reads the arguments of `play`, which follow the name of the program and that of the command.
/// An argument that asks for nothing known is handed back.
pub fn parse_play(args: &[String]) -> (r: Result<PlayArgs, String>)
    ensures
        match r {
            Ok(p) => settings_from(words(args@), 2, no_settings()) == Ok::<
                PlayArgsView,
                Seq<char>,
            >(p@),
            Err(a) => settings_from(words(args@), 2, no_settings()) == Err::<
                PlayArgsView,
                Seq<char>,
            >(a@),
        },
{
    let ghost w = words(args@);
    let mut p: PlayArgs = PlayArgs {
        file: None,
        rate: Rate::Unlimited,
        loop_: false,
        as_json: false,
        show: None,
        seek: None,
        seek_ratio: None,
    };
    let mut i: usize = 2;
    while i < args.len()
        invariant
            w == words(args@),
            2 <= i,
            i <= args.len() || args.len() < 2,
            settings_from(w, i as int, p@) == settings_from(w, 2, no_settings()),
        decreases args.len() - i,
    {
        let ghost start = i as int;
        let ghost before = p@;
        let a: &str = args[i].as_str();
        let more: bool = i + 1 < args.len();
        if same_text(a, "--rate") {
            if more {
                p.rate = Rate::Text(args[i + 1].clone());
                i = i + 2;
            } else {
                p.rate = Rate::Unlimited;
                i = args.len();
            }
        } else if let Some(v) = strip_prefix(a, "--rate=") {
            p.rate = Rate::Text(v);
            i = i + 1;
        } else if more && same_text(a, "--seek") {
            p.seek = Some(args[i + 1].clone());
            i = i + 2;
        } else if let Some(v) = strip_prefix(a, "--seek=") {
            p.seek = Some(v);
            i = i + 1;
        } else if more && same_text(a, "--seek-ratio") {
            p.seek_ratio = Some(args[i + 1].clone());
            i = i + 2;
        } else if let Some(v) = strip_prefix(a, "--seek-ratio=") {
            p.seek_ratio = Some(v);
            i = i + 1;
        } else if more && same_text(a, "--show") {
            p.show = Some(args[i + 1].clone());
            i = i + 2;
        } else if let Some(v) = strip_prefix(a, "--show=") {
            p.show = Some(v);
            i = i + 1;
        } else if same_text(a, "--loop") {
            p.loop_ = true;
            i = i + 1;
        } else if same_text(a, "--json") {
            p.as_json = true;
            i = i + 1;
        } else if same_text(a, "--paced") {
            p.rate = Rate::RealTime;
            i = i + 1;
        } else if strip_prefix(a, "--").is_none() {
            p.file = Some(text_of(a));
            i = i + 1;
        } else {
            return Err(text_of(a));
        }
        proof {
            let (setting, n) = setting_at(w, start);
            assert(p@ =~= with_setting(before, setting));
            assert(settings_from(w, start, before) == settings_from(w, start + n, p@));
        }
    }
    Ok(p)
}

/// What stands behind the first argument `name`.
pub open spec fn value_behind(args: Seq<Seq<char>>, name: Seq<char>, i: int) -> Option<Seq<char>>
    decreases args.len() - i,
{
    if i >= args.len() {
        None
    } else if args[i] == name {
        if i + 1 < args.len() {
            Some(args[i + 1])
        } else {
            None
        }
    } else {
        value_behind(args, name, i + 1)
    }
}

/// What stands behind the first argument `name`.
pub fn arg_str(args: &[String], name: &str) -> (r: Option<String>)
    ensures
        text_view(r) == value_behind(words(args@), name@, 0),
{
    let mut i: usize = 0;
    while i < args.len()
        invariant
            i <= args.len(),
            value_behind(words(args@), name@, i as int) == value_behind(words(args@), name@, 0),
        decreases args.len() - i,
    {
        if same_text(args[i].as_str(), name) {
            if i + 1 < args.len() {
                return Some(args[i + 1].clone());
            }
            return None;
        }
        i = i + 1;
    }
    None
}

/// The lidars that mapping knows.
#[derive(Clone, Copy, Debug, PartialEq, Eq)]
pub enum Lidar {
    Avia,
    Velo16,
    Ouster,
    Marsim,
}

/// The lidar of the given name; that of Livox where there is no name or another one.
pub fn lidar_named(name: Option<String>) -> (r: Lidar)
    ensures
        r == (match text_view(name) {
            None => Lidar::Avia,
            Some(s) => if s == "velo16"@ {
                Lidar::Velo16
            } else if s == "ouster"@ {
                Lidar::Ouster
            } else if s == "marsim"@ {
                Lidar::Marsim
            } else {
                Lidar::Avia
            },
        }),
{
    match name {
        None => Lidar::Avia,
        Some(s) => {
            if same_text(s.as_str(), "velo16") {
                Lidar::Velo16
            } else if same_text(s.as_str(), "ouster") {
                Lidar::Ouster
            } else if same_text(s.as_str(), "marsim") {
                Lidar::Marsim
            } else {
                Lidar::Avia
            }
        },
    }
}

/// The number of scan lines of a lidar. That of Livox has six, and mapping relies on it.
pub fn scan_lines(lidar: Lidar) -> (n: usize)
    ensures
        n == (if lidar is Avia {
            6int
        } else {
            16
        }),
{
    match lidar {
        Lidar::Avia => 6,
        _ => 16,
    }
}

// ---------- what the arguments ask for ----------

/// Where a text differs from a prefix, it does not begin with it.
proof fn lemma_other_beginning(s: Seq<char>, prefix: Seq<char>, k: int)
    requires
        0 <= k < prefix.len(),
        s.len() <= k || s[k] != prefix[k],
    ensures
        after_prefix(s, prefix) is None,
        s != prefix,
{
    if prefix.len() <= s.len() && s.subrange(0, prefix.len() as int) == prefix {
        assert(s.subrange(0, prefix.len() as int)[k] == s[k]);
    }
}

/// What follows a prefix is what it was put before.
proof fn lemma_beginning(prefix: Seq<char>, rest: Seq<char>)
    ensures
        after_prefix(prefix + rest, prefix) == Some(rest),
{
    let s = prefix + rest;
    assert(s.subrange(0, prefix.len() as int) =~= prefix);
    assert(s.subrange(prefix.len() as int, s.len() as int) =~= rest);
}

proof fn lemma_names()
    ensures
        "--"@ =~= seq!['-', '-'],
        "--rate"@ =~= seq!['-', '-', 'r', 'a', 't', 'e'],
        "--rate="@ =~= seq!['-', '-', 'r', 'a', 't', 'e', '='],
        "--seek"@ =~= seq!['-', '-', 's', 'e', 'e', 'k'],
        "--seek="@ =~= seq!['-', '-', 's', 'e', 'e', 'k', '='],
        "--seek-ratio"@ =~= seq!['-', '-', 's', 'e', 'e', 'k', '-', 'r', 'a', 't', 'i', 'o'],
        "--seek-ratio="@ =~= seq![
            '-', '-', 's', 'e', 'e', 'k', '-', 'r', 'a', 't', 'i', 'o', '=',
        ],
        "--show"@ =~= seq!['-', '-', 's', 'h', 'o', 'w'],
        "--show="@ =~= seq!['-', '-', 's', 'h', 'o', 'w', '='],
        "--loop"@ =~= seq!['-', '-', 'l', 'o', 'o', 'p'],
        "--json"@ =~= seq!['-', '-', 'j', 's', 'o', 'n'],
        "--paced"@ =~= seq!['-', '-', 'p', 'a', 'c', 'e', 'd'],
{
    reveal_strlit("--");
    reveal_strlit("--rate");
    reveal_strlit("--rate=");
    reveal_strlit("--seek");
    reveal_strlit("--seek=");
    reveal_strlit("--seek-ratio");
    reveal_strlit("--seek-ratio=");
    reveal_strlit("--show");
    reveal_strlit("--show=");
    reveal_strlit("--loop");
    reveal_strlit("--json");
    reveal_strlit("--paced");
}

/// Without arguments behind the name of the command, `play` plays no file, as fast as possible,
/// once, from the start, and prints no data.
pub proof fn law_play_without_arguments(args: Seq<Seq<char>>)
    requires
        args.len() <= 2,
    ensures
        settings_from(args, 2, no_settings()) matches Ok(p) && p.file is None && p.rate is Unlimited
            && !p.loop_ && !p.as_json && p.show is None && p.seek is None && p.seek_ratio is None,
{
}

/// The words `--loop`, `--json` and `--paced` ask for what they say, and what follows them is read
/// as it is without them.
pub proof fn law_play_reads_words(args: Seq<Seq<char>>, i: int, v: PlayArgsView)
    requires
        0 <= i < args.len(),
    ensures
        args[i] == "--loop"@ ==> settings_from(args, i, v) == settings_from(
            args,
            i + 1,
            PlayArgsView { loop_: true, ..v },
        ),
        args[i] == "--json"@ ==> settings_from(args, i, v) == settings_from(
            args,
            i + 1,
            PlayArgsView { as_json: true, ..v },
        ),
        args[i] == "--paced"@ ==> settings_from(args, i, v) == settings_from(
            args,
            i + 1,
            PlayArgsView { rate: RateView::RealTime, ..v },
        ),
{
    lemma_names();
    let a = args[i];
    if a == "--loop"@ || a == "--json"@ || a == "--paced"@ {
        lemma_other_beginning(a, "--rate="@, 2);
        lemma_other_beginning(a, "--seek="@, 2);
        lemma_other_beginning(a, "--seek-ratio="@, 2);
        lemma_other_beginning(a, "--show="@, 2);
        lemma_other_beginning(a, "--rate"@, 2);
        lemma_other_beginning(a, "--seek"@, 2);
        lemma_other_beginning(a, "--seek-ratio"@, 2);
        lemma_other_beginning(a, "--show"@, 2);
        if a != "--loop"@ {
            lemma_other_beginning(a, "--loop"@, 2);
        }
        if a != "--json"@ {
            lemma_other_beginning(a, "--json"@, 2);
        }
    }
}

/// A value behind `--rate`, `--seek`, `--seek-ratio` or `--show` is taken as it stands, and what
/// follows it is read as it is without the two.
pub proof fn law_play_reads_values(args: Seq<Seq<char>>, i: int, v: PlayArgsView)
    requires
        0 <= i < args.len() - 1,
    ensures
        args[i] == "--rate"@ ==> settings_from(args, i, v) == settings_from(
            args,
            i + 2,
            PlayArgsView { rate: RateView::Text(args[i + 1]), ..v },
        ),
        args[i] == "--seek"@ ==> settings_from(args, i, v) == settings_from(
            args,
            i + 2,
            PlayArgsView { seek: Some(args[i + 1]), ..v },
        ),
        args[i] == "--seek-ratio"@ ==> settings_from(args, i, v) == settings_from(
            args,
            i + 2,
            PlayArgsView { seek_ratio: Some(args[i + 1]), ..v },
        ),
        args[i] == "--show"@ ==> settings_from(args, i, v) == settings_from(
            args,
            i + 2,
            PlayArgsView { show: Some(args[i + 1]), ..v },
        ),
{
    lemma_names();
    let a = args[i];
    if a == "--seek"@ || a == "--seek-ratio"@ || a == "--show"@ {
        lemma_other_beginning(a, "--rate"@, 2);
        lemma_other_beginning(a, "--rate="@, 2);
    }
    if a == "--seek-ratio"@ {
        lemma_other_beginning(a, "--seek="@, 6);
        assert(a.len() != "--seek"@.len());
    }
    if a == "--show"@ {
        lemma_other_beginning(a, "--seek"@, 3);
        lemma_other_beginning(a, "--seek="@, 3);
        lemma_other_beginning(a, "--seek-ratio"@, 3);
        lemma_other_beginning(a, "--seek-ratio="@, 3);
    }
}

/// A value behind an equals sign is taken as it stands, and what follows it is read as it is
/// without the argument.
pub proof fn law_play_reads_values_behind_signs(
    args: Seq<Seq<char>>,
    i: int,
    t: Seq<char>,
    v: PlayArgsView,
)
    requires
        0 <= i < args.len(),
    ensures
        args[i] == "--rate="@ + t ==> settings_from(args, i, v) == settings_from(
            args,
            i + 1,
            PlayArgsView { rate: RateView::Text(t), ..v },
        ),
        args[i] == "--seek="@ + t ==> settings_from(args, i, v) == settings_from(
            args,
            i + 1,
            PlayArgsView { seek: Some(t), ..v },
        ),
        args[i] == "--seek-ratio="@ + t ==> settings_from(args, i, v) == settings_from(
            args,
            i + 1,
            PlayArgsView { seek_ratio: Some(t), ..v },
        ),
        args[i] == "--show="@ + t ==> settings_from(args, i, v) == settings_from(
            args,
            i + 1,
            PlayArgsView { show: Some(t), ..v },
        ),
{
    lemma_names();
    let a = args[i];
    lemma_beginning("--rate="@, t);
    lemma_beginning("--seek="@, t);
    lemma_beginning("--seek-ratio="@, t);
    lemma_beginning("--show="@, t);
    if a == "--rate="@ + t {
        assert(a.len() > "--rate"@.len());
    }
    if a == "--seek="@ + t {
        assert(a[2] == 's');
        assert(a.len() > "--seek"@.len());
        lemma_other_beginning(a, "--rate"@, 2);
        lemma_other_beginning(a, "--rate="@, 2);
    }
    if a == "--seek-ratio="@ + t {
        assert(a[2] == 's' && a[6] == '-');
        assert(a.len() > "--seek-ratio"@.len());
        lemma_other_beginning(a, "--rate"@, 2);
        lemma_other_beginning(a, "--rate="@, 2);
        lemma_other_beginning(a, "--seek="@, 6);
    }
    if a == "--show="@ + t {
        assert(a[2] == 's' && a[3] == 'h');
        assert(a.len() > "--show"@.len());
        lemma_other_beginning(a, "--rate"@, 2);
        lemma_other_beginning(a, "--rate="@, 2);
        lemma_other_beginning(a, "--seek"@, 3);
        lemma_other_beginning(a, "--seek="@, 3);
        lemma_other_beginning(a, "--seek-ratio"@, 3);
        lemma_other_beginning(a, "--seek-ratio="@, 3);
    }
}

/// An argument that does not begin with two hyphens names the file.
pub proof fn law_play_reads_files(args: Seq<Seq<char>>, i: int, v: PlayArgsView)
    requires
        0 <= i < args.len(),
        args[i].len() < 2 || args[i][0] != '-' || args[i][1] != '-',
    ensures
        settings_from(args, i, v) == settings_from(
            args,
            i + 1,
            PlayArgsView { file: Some(args[i]), ..v },
        ),
{
    lemma_names();
    let a = args[i];
    let k = if a.len() == 0 || a[0] != '-' {
        0int
    } else {
        1
    };
    lemma_other_beginning(a, "--"@, k);
    lemma_other_beginning(a, "--rate"@, k);
    lemma_other_beginning(a, "--rate="@, k);
    lemma_other_beginning(a, "--seek"@, k);
    lemma_other_beginning(a, "--seek="@, k);
    lemma_other_beginning(a, "--seek-ratio"@, k);
    lemma_other_beginning(a, "--seek-ratio="@, k);
    lemma_other_beginning(a, "--show"@, k);
    lemma_other_beginning(a, "--show="@, k);
    lemma_other_beginning(a, "--loop"@, k);
    lemma_other_beginning(a, "--json"@, k);
    lemma_other_beginning(a, "--paced"@, k);
}

/// An argument that begins with two hyphens and asks for nothing known is handed back, and so is
/// one that lacks its value, but for `--rate`, which asks for no limit there.
pub proof fn law_play_hands_back_what_it_does_not_know(
    args: Seq<Seq<char>>,
    i: int,
    t: Seq<char>,
    v: PlayArgsView,
)
    requires
        0 <= i < args.len(),
        args[i] == "--"@ + t,
    ensures
        ({
            let known = t == "loop"@ || t == "json"@ || t == "paced"@ || t == "rate"@ || (i + 1
                < args.len() && (t == "seek"@ || t == "seek-ratio"@ || t == "show"@));
            let assigned = exists|w: Seq<char>| t == "rate="@ + w || t == "seek="@ + w || t
                == "seek-ratio="@ + w || t == "show="@ + w;
            !known && !assigned ==> settings_from(args, i, v) == Err::<PlayArgsView, Seq<char>>(
                args[i],
            )
        }),
        t == "rate"@ && i + 1 == args.len() ==> settings_from(args, i, v) == Ok::<
            PlayArgsView,
            Seq<char>,
        >(PlayArgsView { rate: RateView::Unlimited, ..v }),
{
    lemma_names();
    lemma_beginning("--"@, t);
    reveal_with_fuel(settings_from, 2);
    let a = args[i];
    reveal_strlit("loop");
    reveal_strlit("json");
    reveal_strlit("paced");
    reveal_strlit("rate");
    reveal_strlit("seek");
    reveal_strlit("seek-ratio");
    reveal_strlit("show");
    reveal_strlit("rate=");
    reveal_strlit("seek=");
    reveal_strlit("seek-ratio=");
    reveal_strlit("show=");
    assert("--loop"@ =~= "--"@ + "loop"@ && "--json"@ =~= "--"@ + "json"@ && "--paced"@ =~= "--"@
        + "paced"@ && "--rate"@ =~= "--"@ + "rate"@ && "--seek"@ =~= "--"@ + "seek"@
        && "--seek-ratio"@ =~= "--"@ + "seek-ratio"@ && "--show"@ =~= "--"@ + "show"@);
    assert("--rate="@ =~= "--"@ + "rate="@ && "--seek="@ =~= "--"@ + "seek="@ && "--seek-ratio="@
        =~= "--"@ + "seek-ratio="@ && "--show="@ =~= "--"@ + "show="@);
    lemma_behind_hyphens(t, "loop"@);
    lemma_behind_hyphens(t, "json"@);
    lemma_behind_hyphens(t, "paced"@);
    lemma_behind_hyphens(t, "rate"@);
    lemma_behind_hyphens(t, "seek"@);
    lemma_behind_hyphens(t, "seek-ratio"@);
    lemma_behind_hyphens(t, "show"@);
    lemma_behind_hyphens(t, "rate="@);
    lemma_behind_hyphens(t, "seek="@);
    lemma_behind_hyphens(t, "seek-ratio="@);
    lemma_behind_hyphens(t, "show="@);
    let assigned = exists|w: Seq<char>|
        t == "rate="@ + w || t == "seek="@ + w || t == "seek-ratio="@ + w || t == "show="@ + w;
    if !assigned {
        assert(after_prefix(a, "--rate="@) is None);
        assert(after_prefix(a, "--seek="@) is None);
        assert(after_prefix(a, "--seek-ratio="@) is None);
        assert(after_prefix(a, "--show="@) is None);
    }
}

/// Behind the two hyphens, texts and beginnings are compared as without them.
proof fn lemma_behind_hyphens(t: Seq<char>, name: Seq<char>)
    ensures
        "--"@ + t == "--"@ + name ==> t == name,
        after_prefix("--"@ + t, "--"@ + name) matches Some(w) ==> t == name + w,
{
    lemma_names();
    let a = "--"@ + t;
    let n = "--"@ + name;
    assert(a.subrange(2, a.len() as int) =~= t);
    assert(n.subrange(2, n.len() as int) =~= name);
    if let Some(w) = after_prefix(a, n) {
        assert(a =~= n + w) by {
            assert forall|k: int| 0 <= k < n.len() implies a[k] == n[k] by {
                assert(a.subrange(0, n.len() as int)[k] == a[k]);
            }
        }
        assert(t =~= name + w) by {
            assert forall|k: int| 0 <= k < t.len() implies t[k] == (name + w)[k] by {
                assert(a[k + 2] == (n + w)[k + 2]);
            }
        }
    }
}

/// What stands behind the first of the arguments of a name is found, and nothing where the name
/// does not occur or ends the arguments.
pub proof fn law_value_stands_behind_the_first_name(args: Seq<Seq<char>>, name: Seq<char>, k: int)
    requires
        0 <= k <= args.len(),
        forall|j: int| 0 <= j < k ==> args[j] != name,
    ensures
        k == args.len() ==> value_behind(args, name, 0) is None,
        k < args.len() && args[k] == name ==> value_behind(args, name, 0) == (if k + 1
            < args.len() {
            Some(args[k + 1])
        } else {
            None
        }),
{
    lemma_names_passed(args, name, 0, k);
}

proof fn lemma_names_passed(args: Seq<Seq<char>>, name: Seq<char>, i: int, k: int)
    requires
        0 <= i <= k <= args.len(),
        forall|j: int| i <= j < k ==> args[j] != name,
    ensures
        value_behind(args, name, i) == value_behind(args, name, k),
    decreases k - i,
{
    if i < k {
        assert(args[i] != name);
        lemma_names_passed(args, name, i + 1, k);
    }
}

/// What the arguments of `play` say is what their fields hold.
pub proof fn law_arguments_say_what_they_hold(p: PlayArgs)
    ensures
        p@.file is Some == p.file is Some && (p.file matches Some(t) ==> p@.file == Some(t@)),
        p@.show is Some == p.show is Some && (p.show matches Some(t) ==> p@.show == Some(t@)),
        p@.seek is Some == p.seek is Some && (p.seek matches Some(t) ==> p@.seek == Some(t@)),
        p@.seek_ratio is Some == p.seek_ratio is Some && (p.seek_ratio matches Some(t)
            ==> p@.seek_ratio == Some(t@)),
        p@.loop_ == p.loop_ && p@.as_json == p.as_json,
        p@.rate is Unlimited == p.rate is Unlimited && p@.rate is RealTime == p.rate is RealTime,
        p.rate matches Rate::Text(t) ==> p@.rate == RateView::Text(t@),
{
}

} // verus!
