//! The text decisions of the Land Survey commands: which command a command
//! line names, its first argument, the keyword modes of `LS_HELMERT` and
//! `LS_RESECT`, and the layer name derived from a file path.
use vstd::prelude::*;

use crate::state::{ascii_lower, chars_eq_ignore_ascii_case, eq_ignore_ascii_case, lower};
use crate::text::{
    chars_equal, chars_of, is_whitespace, is_ws, split_words, string_of_chars, string_of_range,
    trim, trim_bounds, words,
};

verus! {

/// Position of the first whitespace character of `s`.
pub open spec fn first_ws(s: Seq<char>, cur: int) -> Option<int>
    decreases s.len() - cur,
{
    if cur < 0 || cur >= s.len() {
        None
    } else if is_ws(s[cur]) {
        Some(cur)
    } else {
        first_ws(s, cur + 1)
    }
}

/// The first argument after the command verb, trimmed: the text after the
/// first whitespace character (`splitn(2, char::is_whitespace)`), or nothing.
pub open spec fn first_arg_text(cmd: Seq<char>) -> Seq<char> {
    match first_ws(cmd, 0) {
        None => seq![],
        Some(k) => trim(cmd.subrange(k + 1, cmd.len() as int)),
    }
}

pub proof fn lemma_first_ws(s: Seq<char>, cur: int)
    requires
        0 <= cur,
    ensures
        first_ws(s, cur) matches Some(k) ==> cur <= k < s.len(),
    decreases s.len() - cur,
{
    if cur < s.len() && !is_ws(s[cur]) {
        lemma_first_ws(s, cur + 1);
    }
}

/// First whitespace-delimited argument after the command verb, trimmed.
pub fn first_arg(cmd: &str) -> (r: String)
    ensures
        r@ == first_arg_text(cmd@),
{
    let c = chars_of(cmd);
    let mut i: usize = 0;
    while i < c.len() && !is_whitespace(c[i])
        invariant
            i <= c@.len(),
            first_ws(c@, 0) == first_ws(c@, i as int),
        decreases c@.len() - i,
    {
        i = i + 1;
    }
    if i == c.len() {
        return String::new();
    }
    let (a, b) = trim_bounds(c.as_slice(), i + 1, c.len());
    string_of_range(c.as_slice(), a, b)
}

/// What `str::to_uppercase` maps a string to (full Unicode upper case).
pub uninterp spec fn upper(s: Seq<char>) -> Seq<char>;

/// ASCII upper case of one character (other characters unchanged).
pub open spec fn ascii_upper(c: char) -> char {
    if 'a' <= c <= 'z' {
        ((c as u8) - 32) as char
    } else {
        c
    }
}

/// Whether every character of `s` is ASCII.
pub open spec fn all_ascii(s: Seq<char>) -> bool {
    forall|i: int| 0 <= i < s.len() ==> (#[trigger] s[i] as u32) < 128
}

/// ASCII upper case of every character of `s`.
pub open spec fn ascii_upper_text(s: Seq<char>) -> Seq<char> {
    s.map_values(|c: char| ascii_upper(c))
}

/// `str::to_uppercase`: the Unicode upper case of `s`, named by `upper`
/// rather than described (its tables span all of Unicode); on ASCII text,
/// where Unicode upper case is ASCII upper case, it is stated.
#[verifier::external_body]
pub(crate) fn to_upper(s: &str) -> (r: String)
    ensures
        r@ == upper(s@),
        all_ascii(s@) ==> r@ == ascii_upper_text(s@),
{
    s.to_uppercase()
}

/// A non-empty name with none of `/`, `\\`, `:` or `.`: a single path
/// component, without prefix or extension, on every platform.
pub open spec fn plain_name(s: Seq<char>) -> bool {
    s.len() > 0 && forall|i: int|
        0 <= i < s.len() ==> #[trigger] s[i] != '/' && s[i] != '\\' && s[i] != ':' && s[i] != '.'
}

/// A directory part that cannot change which component ends `d/...` on any
/// platform: it may be empty, and it holds no `\\`, no `//` and no trailing
/// `/` (so no UNC or verbatim prefix can take in what follows).
pub open spec fn plain_dir(d: Seq<char>) -> bool {
    &&& forall|i: int| 0 <= i < d.len() ==> #[trigger] d[i] != '\\'
    &&& forall|i: int| 0 <= i < d.len() - 1 ==> !(#[trigger] d[i] == '/' && d[i + 1] == '/')
    &&& d.len() > 0 ==> d[d.len() - 1] != '/'
}

/// `Path::file_stem` of `path`, as text. Path syntax is the platform's, so
/// in general the result is only stated to be a piece of `path`. Where the
/// last component is plainly `n` or `n.e` (plain `n` and `e`, see
/// [`plain_name`]), alone or after `d/` (see [`plain_dir`]), its stem is `n`,
/// as the documentation of `file_stem` gives it: the file name is the last
/// component, and the stem is the part before its last `.`.
#[verifier::external_body]
fn file_stem_of(path: &str) -> (r: Option<String>)
    ensures
        r matches Some(s) ==> exists|i: int, j: int|
            0 <= i <= j <= path@.len() && s@ == path@.subrange(i, j),
        plain_name(path@) ==> r is Some,
        r matches Some(s) ==> (plain_name(path@) ==> s@ == path@),
        (exists|n: Seq<char>, e: Seq<char>|
            #![trigger plain_name(n), plain_name(e)]
            plain_name(n) && plain_name(e) && path@ == n + seq!['.'] + e) ==> r is Some,
        r matches Some(s) ==> forall|n: Seq<char>, e: Seq<char>|
            #![trigger plain_name(n), plain_name(e)]
            plain_name(n) && plain_name(e) && path@ == n + seq!['.'] + e ==> s@ == n,
        (exists|d: Seq<char>, n: Seq<char>|
            #![trigger plain_dir(d), plain_name(n)]
            plain_dir(d) && plain_name(n) && path@ == d + seq!['/'] + n) ==> r is Some,
        r matches Some(s) ==> forall|d: Seq<char>, n: Seq<char>|
            #![trigger plain_dir(d), plain_name(n)]
            plain_dir(d) && plain_name(n) && path@ == d + seq!['/'] + n ==> s@ == n,
        (exists|d: Seq<char>, n: Seq<char>, e: Seq<char>|
            #![trigger plain_dir(d), plain_name(n), plain_name(e)]
            plain_dir(d) && plain_name(n) && plain_name(e) && path@ == d + seq!['/'] + n
                + seq!['.'] + e) ==> r is Some,
        r matches Some(s) ==> forall|d: Seq<char>, n: Seq<char>, e: Seq<char>|
            #![trigger plain_dir(d), plain_name(n), plain_name(e)]
            plain_dir(d) && plain_name(n) && plain_name(e) && path@ == d + seq!['/'] + n
                + seq!['.'] + e ==> s@ == n,
{
    std::path::Path::new(path).file_stem().map(|s| s.to_string_lossy().into_owned())
}

/// `SURFACE`, the name of a surface whose file name gives none.
pub open spec fn default_surface_name() -> Seq<char> {
    seq!['S', 'U', 'R', 'F', 'A', 'C', 'E']
}

/// The layer name for a file stem: the stem in upper case, or `SURFACE` when
/// there is no stem or it is empty in upper case.
pub open spec fn stem_name(stem: Option<Seq<char>>) -> Seq<char> {
    match stem {
        Some(s) => if upper(s).len() > 0 {
            upper(s)
        } else {
            default_surface_name()
        },
        None => default_surface_name(),
    }
}

/// The layer name for a file stem (see [`stem_name`]).
pub fn layer_name_of_stem(stem: Option<String>) -> (r: String)
    ensures
        r@ == stem_name(
            match stem {
                Some(s) => Some(s@),
                None => None,
            },
        ),
        stem matches Some(s) ==> (all_ascii(s@) && s@.len() > 0 ==> r@ == ascii_upper_text(s@)),
{
    let d: Vec<char> = vec!['S', 'U', 'R', 'F', 'A', 'C', 'E'];
    assert(d@ =~= default_surface_name());
    match stem {
        Some(s) => {
            let u = to_upper(s.as_str());
            if chars_of(u.as_str()).len() > 0 {
                u
            } else {
                string_of_chars(d.as_slice())
            }
        },
        None => string_of_chars(d.as_slice()),
    }
}

/// Whether `x` is a contiguous piece of `path`.
pub open spec fn piece_of(x: Seq<char>, path: Seq<char>) -> bool {
    exists|i: int, j: int| 0 <= i <= j <= path.len() && x == path.subrange(i, j)
}

/// Upper-cased file stem of `path`, used as a surface name / layer suffix
/// (`SURFACE` when the path has none): the layer name (see [`stem_name`]) of
/// the stem that `Path::file_stem` finds, a piece of `path`; for a last
/// component `n` or `n.e`, alone or after a directory part `d/`, that stem is
/// `n` (so `C:/data/top.csv` gives `TOP`).
pub fn layer_stem(path: &str) -> (r: String)
    ensures
        exists|st: Option<Seq<char>>|
            r@ == stem_name(st) && (st matches Some(x) ==> piece_of(x, path@)),
        plain_name(path@) ==> r@ == stem_name(Some(path@)) && (all_ascii(path@) ==> r@
            == ascii_upper_text(path@)),
        forall|n: Seq<char>, e: Seq<char>|
            #![trigger plain_name(n), plain_name(e)]
            plain_name(n) && plain_name(e) && path@ == n + seq!['.'] + e ==> r@ == stem_name(
                Some(n),
            ) && (all_ascii(n) ==> r@ == ascii_upper_text(n)),
        forall|d: Seq<char>, n: Seq<char>|
            #![trigger plain_dir(d), plain_name(n)]
            plain_dir(d) && plain_name(n) && path@ == d + seq!['/'] + n ==> r@ == stem_name(
                Some(n),
            ) && (all_ascii(n) ==> r@ == ascii_upper_text(n)),
        forall|d: Seq<char>, n: Seq<char>, e: Seq<char>|
            #![trigger plain_dir(d), plain_name(n), plain_name(e)]
            plain_dir(d) && plain_name(n) && plain_name(e) && path@ == d + seq!['/'] + n
                + seq!['.'] + e ==> r@ == stem_name(Some(n)) && (all_ascii(n) ==> r@
                == ascii_upper_text(n)),
{
    let stem = file_stem_of(path);
    let ghost st = match &stem {
        Some(s) => Some(s@),
        None => None,
    };
    let r = layer_name_of_stem(stem);
    assert(r@ == stem_name(st));
    r
}

/// A Land Survey command, named by the first word of a command line.
#[derive(Debug, Clone, Copy, PartialEq, Eq, Structural)]
pub enum Command {
    /// `LS_HELLO`: report that the plugin is ready.
    Hello,
    /// `LS_PNEZD <path>`: import a PNEZD point file.
    Pnezd,
    /// `LS_IMPORTPLAN <path>`: import recognized plan geometry.
    ImportPlan,
    /// `LS_INVERSE <N1> <E1> <N2> <E2> [anim]`: distance and bearing.
    Inverse,
    /// `LS_VOLUME [<top> <bottom>] [grid_step] [draw]`: surface-to-surface volume.
    Volume,
    /// `LS_SURFACE <path>`: build and draw a TIN.
    Surface,
    /// `LS_LANDXML <path>` or the host's `LANDXMLIMPORT`: import LandXML surfaces.
    LandXml,
    /// `LS_DATUM <surface> <elevation>`: volume against a level plane.
    Datum,
    /// `LS_RTS ...`: rotate, translate and scale the drawing.
    Rts,
    /// `LS_HELMERT <pairs> [mode]`: best-fit conformal transform.
    Helmert,
    /// `LS_RESECT <shots> [anim]`: free-station resection.
    Resect,
    /// `LS_LIST`: count the survey points in the drawing.
    List,
}

/// The command a verb (already in upper case) names, if any.
pub open spec fn command_named(v: Seq<char>) -> Option<Command> {
    if v == "LS_HELLO"@ {
        Some(Command::Hello)
    } else if v == "LS_PNEZD"@ {
        Some(Command::Pnezd)
    } else if v == "LS_IMPORTPLAN"@ {
        Some(Command::ImportPlan)
    } else if v == "LS_INVERSE"@ {
        Some(Command::Inverse)
    } else if v == "LS_VOLUME"@ {
        Some(Command::Volume)
    } else if v == "LS_SURFACE"@ {
        Some(Command::Surface)
    } else if v == "LS_LANDXML"@ || v == "LANDXMLIMPORT"@ {
        Some(Command::LandXml)
    } else if v == "LS_DATUM"@ {
        Some(Command::Datum)
    } else if v == "LS_RTS"@ {
        Some(Command::Rts)
    } else if v == "LS_HELMERT"@ {
        Some(Command::Helmert)
    } else if v == "LS_RESECT"@ {
        Some(Command::Resect)
    } else if v == "LS_LIST"@ {
        Some(Command::List)
    } else {
        None
    }
}

/// The first whitespace-delimited word of a command line, or nothing.
pub open spec fn first_word(s: Seq<char>) -> Seq<char> {
    if words(s).len() > 0 {
        words(s)[0]
    } else {
        seq![]
    }
}

fn is_verb(u: &[char], name: &str) -> (r: bool)
    ensures
        r == (u@ == name@),
{
    let v = chars_of(name);
    chars_equal(u, v.as_slice())
}

/// The command a verb names; the verb is compared as given, so callers pass
/// it in upper case.
pub fn command_of_verb(verb: &str) -> (r: Option<Command>)
    ensures
        r == command_named(verb@),
{
    let c = chars_of(verb);
    let u = c.as_slice();
    if is_verb(u, "LS_HELLO") {
        Some(Command::Hello)
    } else if is_verb(u, "LS_PNEZD") {
        Some(Command::Pnezd)
    } else if is_verb(u, "LS_IMPORTPLAN") {
        Some(Command::ImportPlan)
    } else if is_verb(u, "LS_INVERSE") {
        Some(Command::Inverse)
    } else if is_verb(u, "LS_VOLUME") {
        Some(Command::Volume)
    } else if is_verb(u, "LS_SURFACE") {
        Some(Command::Surface)
    } else if is_verb(u, "LS_LANDXML") || is_verb(u, "LANDXMLIMPORT") {
        Some(Command::LandXml)
    } else if is_verb(u, "LS_DATUM") {
        Some(Command::Datum)
    } else if is_verb(u, "LS_RTS") {
        Some(Command::Rts)
    } else if is_verb(u, "LS_HELMERT") {
        Some(Command::Helmert)
    } else if is_verb(u, "LS_RESECT") {
        Some(Command::Resect)
    } else if is_verb(u, "LS_LIST") {
        Some(Command::List)
    } else {
        None
    }
}

/// The command a command line names: its first word in upper case, looked
/// up among the command verbs. `None` when the line is not a Land Survey
/// command.
pub fn command_of(cmd: &str) -> (r: Option<Command>)
    ensures
        r == command_named(upper(first_word(cmd@))),
        all_ascii(first_word(cmd@)) ==> r == command_named(ascii_upper_text(first_word(cmd@))),
{
    let c = chars_of(cmd);
    let ws = split_words(c.as_slice());
    let first = if ws.len() > 0 {
        string_of_chars(ws[0].as_slice())
    } else {
        String::new()
    };
    proof {
        assert(crate::text::views(ws@).len() == ws@.len());
        if ws@.len() > 0 {
            assert(crate::text::views(ws@)[0] == ws@[0]@);
        }
        assert(first@ == first_word(cmd@));
    }
    let verb = to_upper(first.as_str());
    command_of_verb(verb.as_str())
}

/// Whether `s` ends with `suf` up to ASCII case (`suf` given in lower case):
/// `s.to_ascii_lowercase().ends_with(suf)`.
pub open spec fn ends_with_ci(s: Seq<char>, suf: Seq<char>) -> bool {
    s.len() >= suf.len() && forall|i: int|
        0 <= i < suf.len() ==> ascii_lower(#[trigger] s[s.len() - suf.len() + i]) == suf[i]
}

/// `s` without the trailing `suf`, trimmed.
pub open spec fn strip_suffix(s: Seq<char>, suf: Seq<char>) -> Seq<char> {
    trim(s.take(s.len() - suf.len()))
}

fn ends_ci(s: &[char], suf: &str) -> (r: bool)
    ensures
        r == ends_with_ci(s@, suf@),
{
    let t = chars_of(suf);
    if s.len() < t.len() {
        return false;
    }
    let n = s.len();
    let off = n - t.len();
    let mut i: usize = 0;
    while i < t.len()
        invariant
            t@ == suf@,
            n == s@.len(),
            t@.len() <= n,
            off == n - t@.len(),
            i <= t@.len(),
            forall|k: int| 0 <= k < i ==> ascii_lower(#[trigger] s@[s@.len() - t@.len() + k]) == t@[k],
        decreases t@.len() - i,
    {
        if lower(s[off + i]) != t[i] {
            return false;
        }
        i = i + 1;
    }
    true
}

/// `s[..len - suf.len()]` trimmed, as a `String`.
fn strip_ci(s: &[char], suf: &str) -> (r: String)
    requires
        ends_with_ci(s@, suf@),
    ensures
        r@ == strip_suffix(s@, suf@),
{
    let t = chars_of(suf);
    let end = s.len() - t.len();
    let (a, b) = trim_bounds(s, 0, end);
    assert(s@.subrange(0, end as int) =~= s@.take(end as int));
    string_of_range(s, a, b)
}

/// What `LS_HELMERT` is asked to do: the control-pair file, and the trailing
/// mode keyword (`apply`, `stages`, `teach` (which also animates) or `anim`).
pub struct HelmertRequest {
    pub path: String,
    pub apply: bool,
    pub stages: bool,
    pub anim: bool,
    pub teach: bool,
}

/// The path and the flags `(apply, stages, anim, teach)` that the argument
/// text of `LS_HELMERT` asks for. The keyword is matched at the end, without
/// regard to ASCII case, since the path may contain spaces.
pub open spec fn helmert_request_of(rest: Seq<char>) -> (Seq<char>, bool, bool, bool, bool) {
    if ends_with_ci(rest, " apply"@) {
        (strip_suffix(rest, " apply"@), true, false, false, false)
    } else if ends_with_ci(rest, " stages"@) {
        (strip_suffix(rest, " stages"@), false, true, false, false)
    } else if ends_with_ci(rest, " teach"@) {
        (strip_suffix(rest, " teach"@), false, false, true, true)
    } else if ends_with_ci(rest, " anim"@) {
        (strip_suffix(rest, " anim"@), false, false, true, false)
    } else {
        (rest, false, false, false, false)
    }
}

/// The request of an `LS_HELMERT` command line, or `None` when it has no
/// argument (the usage message is due).
pub fn helmert_request(cmd: &str) -> (r: Option<HelmertRequest>)
    ensures
        r is None <==> first_arg_text(cmd@).len() == 0,
        r matches Some(q) ==> (q.path@, q.apply, q.stages, q.anim, q.teach) == helmert_request_of(
            first_arg_text(cmd@),
        ),
{
    let rest = first_arg(cmd);
    let c = chars_of(rest.as_str());
    let s = c.as_slice();
    if c.len() == 0 {
        return None;
    }
    if ends_ci(s, " apply") {
        Some(HelmertRequest { path: strip_ci(s, " apply"), apply: true, stages: false, anim: false, teach: false })
    } else if ends_ci(s, " stages") {
        Some(HelmertRequest { path: strip_ci(s, " stages"), apply: false, stages: true, anim: false, teach: false })
    } else if ends_ci(s, " teach") {
        Some(HelmertRequest { path: strip_ci(s, " teach"), apply: false, stages: false, anim: true, teach: true })
    } else if ends_ci(s, " anim") {
        Some(HelmertRequest { path: strip_ci(s, " anim"), apply: false, stages: false, anim: true, teach: false })
    } else {
        Some(HelmertRequest { path: rest, apply: false, stages: false, anim: false, teach: false })
    }
}

/// What `LS_RESECT` is asked to do: the shots file, and whether a trailing
/// `anim` keyword asks for the animated explainer.
pub struct ResectRequest {
    pub path: String,
    pub anim: bool,
}

/// The path and the `anim` flag that the argument text of `LS_RESECT` asks for.
pub open spec fn resect_request_of(rest: Seq<char>) -> (Seq<char>, bool) {
    if ends_with_ci(rest, " anim"@) {
        (strip_suffix(rest, " anim"@), true)
    } else {
        (rest, false)
    }
}

/// The request of an `LS_RESECT` command line, or `None` when it has no
/// argument (the usage message is due).
pub fn resect_request(cmd: &str) -> (r: Option<ResectRequest>)
    ensures
        r is None <==> first_arg_text(cmd@).len() == 0,
        r matches Some(q) ==> (q.path@, q.anim) == resect_request_of(first_arg_text(cmd@)),
{
    let rest = first_arg(cmd);
    let c = chars_of(rest.as_str());
    let s = c.as_slice();
    if c.len() == 0 {
        return None;
    }
    if ends_ci(s, " anim") {
        Some(ResectRequest { path: strip_ci(s, " anim"), anim: true })
    } else {
        Some(ResectRequest { path: rest, anim: false })
    }
}

/// Why a set of resection shots cannot be solved.
#[derive(Debug, Clone, Copy, PartialEq, Eq, Structural)]
pub enum ResectRefusal {
    /// Fewer than two usable shots.
    TooFewShots,
    /// Neither two shots with distances nor exactly three angle shots.
    NoSolvableSet,
}

/// The solution method for `n_shots` usable shots of which `n_with_distance`
/// carry a distance: combined when at least two carry distances, else
/// angle-only when there are exactly three shots.
pub open spec fn method_for(n_shots: nat, n_with_distance: nat) -> Result<
    crate::ResectionMethod,
    ResectRefusal,
> {
    if n_shots < 2 {
        Err(ResectRefusal::TooFewShots)
    } else if n_with_distance >= 2 {
        Ok(crate::ResectionMethod::Combined)
    } else if n_shots == 3 {
        Ok(crate::ResectionMethod::AngleOnly)
    } else {
        Err(ResectRefusal::NoSolvableSet)
    }
}

/// Choose how to solve a resection (see [`method_for`]).
pub fn resection_method(n_shots: usize, n_with_distance: usize) -> (r: Result<
    crate::ResectionMethod,
    ResectRefusal,
>)
    requires
        n_with_distance <= n_shots,
    ensures
        r == method_for(n_shots as nat, n_with_distance as nat),
{
    if n_shots < 2 {
        Err(ResectRefusal::TooFewShots)
    } else if n_with_distance >= 2 {
        Ok(crate::ResectionMethod::Combined)
    } else if n_shots == 3 {
        Ok(crate::ResectionMethod::AngleOnly)
    } else {
        Err(ResectRefusal::NoSolvableSet)
    }
}

/// The two surfaces `LS_VOLUME` compares, from its positional names: `top`
/// and `bottom` when none is given, the first two when two or more are
/// given, and nothing (the usage message) when exactly one is.
pub open spec fn volume_operands_of(names: Seq<Seq<char>>) -> Option<(Seq<char>, Seq<char>)> {
    if names.len() == 0 {
        Some(("top"@, "bottom"@))
    } else if names.len() == 1 {
        None
    } else {
        Some((names[0], names[1]))
    }
}

/// The top and bottom surface names of an `LS_VOLUME` command (see
/// [`volume_operands_of`]).
pub fn volume_operands(names: &Vec<String>) -> (r: Option<(String, String)>)
    ensures
        r matches Some(p) ==> volume_operands_of(names@.map_values(|n: String| n@)) == Some(
            (p.0@, p.1@),
        ),
        r is None ==> volume_operands_of(names@.map_values(|n: String| n@)) is None,
{
    if names.len() == 0 {
        let t = chars_of("top");
        let b = chars_of("bottom");
        Some((string_of_chars(t.as_slice()), string_of_chars(b.as_slice())))
    } else if names.len() == 1 {
        None
    } else {
        let a = chars_of(names[0].as_str());
        let b = chars_of(names[1].as_str());
        Some((string_of_chars(a.as_slice()), string_of_chars(b.as_slice())))
    }
}


/// Whether some whitespace-separated word of `s` equals `word` up to ASCII
/// case (`s.split_whitespace().any(|t| t.eq_ignore_ascii_case(word))`).
pub open spec fn has_word(s: Seq<char>, word: Seq<char>) -> bool {
    exists|k: int| 0 <= k < words(s).len() && eq_ignore_ascii_case(#[trigger] words(s)[k], word)
}

/// Whether a command line carries the keyword `word`, in any ASCII case,
/// as one of its words (see [`has_word`]).
pub fn has_keyword(cmd: &str, word: &str) -> (r: bool)
    ensures
        r == has_word(cmd@, word@),
{
    let c = chars_of(cmd);
    let ws = split_words(c.as_slice());
    let w = chars_of(word);
    let mut k: usize = 0;
    while k < ws.len()
        invariant
            crate::text::views(ws@) == words(cmd@),
            c@ == cmd@,
            w@ == word@,
            k <= ws@.len(),
            forall|j: int| 0 <= j < k ==> !eq_ignore_ascii_case(#[trigger] words(cmd@)[j], word@),
        decreases ws@.len() - k,
    {
        assert(crate::text::views(ws@)[k as int] == ws@[k as int]@);
        if chars_eq_ignore_ascii_case(ws[k].as_slice(), w.as_slice()) {
            return true;
        }
        k = k + 1;
    }
    false
}


/// How a resection is solved, in terms of the shot counts: fewer than two
/// shots cannot be solved; with two or more, any two distance shots give the
/// combined solution, whatever the other shots; without two distance shots,
/// exactly three shots give the angle-only solution and any other count
/// cannot be solved. Adding a distance shot never takes the combined method
/// away.
pub proof fn law_resection_method(n_shots: nat, n_with_distance: nat)
    ensures
        n_shots < 2 ==> method_for(n_shots, n_with_distance) == Err::<
            crate::ResectionMethod,
            ResectRefusal,
        >(ResectRefusal::TooFewShots),
        n_shots >= 2 && n_with_distance >= 2 ==> method_for(n_shots, n_with_distance) == Ok::<
            crate::ResectionMethod,
            ResectRefusal,
        >(crate::ResectionMethod::Combined),
        n_shots == 3 && n_with_distance < 2 ==> method_for(n_shots, n_with_distance) == Ok::<
            crate::ResectionMethod,
            ResectRefusal,
        >(crate::ResectionMethod::AngleOnly),
        n_shots >= 2 && n_shots != 3 && n_with_distance < 2 ==> method_for(
            n_shots,
            n_with_distance,
        ) == Err::<crate::ResectionMethod, ResectRefusal>(ResectRefusal::NoSolvableSet),
        method_for(n_shots, n_with_distance) == Ok::<crate::ResectionMethod, ResectRefusal>(
            crate::ResectionMethod::Combined,
        ) ==> method_for(n_shots, n_with_distance + 1) == Ok::<
            crate::ResectionMethod,
            ResectRefusal,
        >(crate::ResectionMethod::Combined),
{
}

/// `LS_VOLUME` compares the first named surface (the top) against the second
/// (the bottom), in the order given, ignoring any further names; with no
/// names it compares `top` against `bottom`, and one name alone is not enough.
pub proof fn law_volume_operands(names: Seq<Seq<char>>)
    ensures
        names.len() >= 2 ==> volume_operands_of(names) == Some((names[0], names[1])),
        names.len() == 1 ==> volume_operands_of(names) is None,
        names.len() == 0 ==> volume_operands_of(names) == Some(("top"@, "bottom"@)),
        forall|extra: Seq<char>|
            names.len() >= 2 ==> #[trigger] volume_operands_of(names.push(extra))
                == volume_operands_of(names),
{
    assert forall|extra: Seq<char>|
        names.len() >= 2 implies #[trigger] volume_operands_of(names.push(extra))
        == volume_operands_of(names) by {
        assert(names.push(extra)[0] == names[0]);
        assert(names.push(extra)[1] == names[1]);
    }
}

} // verus!
