//! Resolving the command line into conversion jobs.
use vstd::prelude::*;

use std::path::Path;

use crate::paths::{file_name, is_epub, spec_extension_of, spec_file_name, spec_is_epub};
use crate::text::{chars_of, string_of};

verus! {

/// The command line: an `.epub` file or a directory to search, and options.
pub struct Cli {
    /// EPUB file, or a directory to search recursively for `.epub` files.
    pub input: String,
    /// Replace each source `.epub` with its converted `.kepub.epub`.
    pub in_place: bool,
    /// Write every converted file into this single flat directory.
    pub output: Option<String>,
    /// Re-convert files even if the target `.kepub.epub` already exists.
    pub overwrite: bool,
}

/// One conversion: read `source`, write the kepub to `target`.
pub struct Job {
    pub source: String,
    pub target: String,
}

/// The full set of work resolved from the command line.
pub struct Plan {
    pub jobs: Vec<Job>,
    /// Sources skipped because their target already exists.
    pub skipped: Vec<String>,
}

/// Why no plan could be made.
pub enum PlanError {
    /// Nothing to convert was found at the input.
    NoSources { input: String },
    /// The input is a file but not an `.epub`.
    NotEpub { input: String },
    /// A source path has no file name.
    NoFileName { source: String },
    /// Two sources would be written to the same target.
    Collision { first: String, second: String, target: String },
}

/// What `str::to_lowercase` returns: the Unicode lower-case mapping of each
/// character.
pub uninterp spec fn unicode_lowercase(s: Seq<char>) -> Seq<char>;

/// What `Path::with_file_name` returns, as text.
pub uninterp spec fn std_with_file_name(path: Seq<char>, name: Seq<char>) -> Seq<char>;

/// What `Path::join` returns, as text.
pub uninterp spec fn std_join(dir: Seq<char>, name: Seq<char>) -> Seq<char>;

/// Whether two paths are equal as `Path` compares them (component by
/// component).
pub uninterp spec fn std_paths_equal(a: Seq<char>, b: Seq<char>) -> bool;

/// `str::to_lowercase`. Claimed: the result is `unicode_lowercase` of the text.
#[verifier::external_body]
pub(crate) fn lowercase(s: &str) -> (r: String)
    ensures
        r@ == unicode_lowercase(s@),
{
    s.to_lowercase()
}

/// `Path::with_file_name`, with the result read back as UTF-8 text. Claimed:
/// the result is `std_with_file_name` of the two texts.
#[verifier::external_body]
fn with_file_name(path: &str, name: &str) -> (r: String)
    ensures
        r@ == std_with_file_name(path@, name@),
{
    Path::new(path).with_file_name(name).to_string_lossy().into_owned()
}

/// `Path::join`, with the result read back as UTF-8 text. Claimed: the
/// result is `std_join` of the two texts.
#[verifier::external_body]
fn join(dir: &str, name: &str) -> (r: String)
    ensures
        r@ == std_join(dir@, name@),
{
    Path::new(dir).join(name).to_string_lossy().into_owned()
}

/// `==` on two `Path`s. Claimed: the result is `std_paths_equal` of the texts.
#[verifier::external_body]
fn paths_equal(a: &str, b: &str) -> (r: bool)
    ensures
        r == std_paths_equal(a@, b@),
{
    Path::new(a) == Path::new(b)
}

/// `s` ends with `suffix`.
pub open spec fn ends_with(s: Seq<char>, suffix: Seq<char>) -> bool {
    suffix.len() <= s.len() && s.skip(s.len() - suffix.len()) == suffix
}

pub(crate) fn ends_with_exec(s: &str, suffix: &str) -> (b: bool)
    ensures
        b == ends_with(s@, suffix@),
{
    let a = chars_of(s);
    let b = chars_of(suffix);
    if b.len() > a.len() {
        return false;
    }
    let off = a.len() - b.len();
    let mut i: usize = 0;
    while i < b.len()
        invariant
            a@ == s@,
            b@ == suffix@,
            off == a@.len() - b@.len(),
            b@.len() <= a@.len(),
            a@.len() == a.len(),
            i <= b@.len(),
            forall|k: int| 0 <= k < i ==> a@[off + k] == b@[k],
        decreases b@.len() - i,
    {
        if a[off + i] != b[i] {
            assert(s@.skip(off as int)[i as int] != suffix@[i as int]);
            return false;
        }
        i += 1;
    }
    assert(s@.skip(off as int) =~= suffix@);
    true
}

/// The file name already ends in the kepub double extension.
pub open spec fn spec_is_kepub(p: Seq<char>) -> bool {
    match spec_file_name(p) {
        Some(name) => ends_with(unicode_lowercase(name), ".kepub.epub"@),
        None => false,
    }
}

/// True when the filename already ends in the kepub double-extension.
pub fn is_kepub(path: &str) -> (b: bool)
    ensures
        b == spec_is_kepub(path@),
{
    match file_name(path) {
        Some(name) => {
            let lower = lowercase(name.as_str());
            ends_with_exec(lower.as_str(), ".kepub.epub")
        },
        None => false,
    }
}

/// Target file name for a source: `foo.epub` becomes `foo.kepub.epub`; an
/// already-kepub name is kept.
pub open spec fn spec_target_file_name(source: Seq<char>) -> Option<Seq<char>> {
    match spec_file_name(source) {
        Some(name) => if spec_is_kepub(source) {
            Some(name)
        } else {
            Some(name.take(name.len() - 5) + ".kepub.epub"@)
        },
        None => None,
    }
}

proof fn lemma_epub_name_long(p: Seq<char>)
    requires
        spec_is_epub(p),
    ensures
        spec_file_name(p) matches Some(name) && name.len() >= 6,
{
    let name = spec_file_name(p)->0;
    let k = crate::paths::last_dot(name, name.len() as int)->0;
    crate::paths::lemma_last_dot_pub(name, name.len() as int);
    reveal_strlit("epub");
    assert(spec_extension_of(name) == Some(name.skip(k + 1)));
    assert(name.skip(k + 1).len() == 4);
}

/// An `.epub` that is not a kepub yet gets the name that its own name has
/// up to and including the last `.`, followed by `kepub.epub`: `foo.epub`
/// becomes `foo.kepub.epub`. A kepub keeps its name.
pub proof fn lemma_target_name(source: Seq<char>)
    requires
        spec_is_epub(source),
    ensures
        spec_file_name(source) matches Some(name) && spec_target_file_name(source) matches Some(t)
            && if spec_is_kepub(source) {
            t == name
        } else {
            &&& name[name.len() - 5] == '.'
            &&& t == name.take(name.len() - 4) + "kepub.epub"@
        },
{
    lemma_epub_name_long(source);
    let name = spec_file_name(source)->0;
    let k = crate::paths::last_dot(name, name.len() as int)->0;
    crate::paths::lemma_last_dot_pub(name, name.len() as int);
    reveal_strlit("epub");
    reveal_strlit("kepub.epub");
    reveal_strlit(".kepub.epub");
    assert(spec_extension_of(name) == Some(name.skip(k + 1)));
    assert(name.skip(k + 1).len() == 4);
    assert(k == name.len() - 5);
    if !spec_is_kepub(source) {
        assert(name.take(name.len() - 5) + ".kepub.epub"@ =~= name.take(name.len() - 4)
            + "kepub.epub"@);
    }
}

/// Target filename for a source: `foo.epub` -> `foo.kepub.epub`;
/// an already-kepub `foo.kepub.epub` keeps its name.
pub fn target_file_name(source: &str) -> (r: Result<String, PlanError>)
    requires
        spec_is_epub(source@),
    ensures
        match r {
            Ok(t) => spec_target_file_name(source@) == Some(t@),
            Err(e) => spec_target_file_name(source@) is None && e == (PlanError::NoFileName {
                source: e->source,
            }) && e->source@ == source@,
        },
{
    let name = match file_name(source) {
        Some(n) => n,
        None => {
            return Err(PlanError::NoFileName { source: source.to_owned() });
        },
    };
    if is_kepub(source) {
        return Ok(name);
    }
    proof {
        lemma_epub_name_long(source@);
    }
    let nc = chars_of(name.as_str());
    let mut base = string_of(&nc, 0, nc.len() - 5);
    base.push_str(".kepub.epub");
    assert(base@ =~= name@.take(name@.len() - 5) + ".kepub.epub"@);
    Ok(base)
}

/// Where a source's kepub goes: into the output directory when one is given,
/// else beside the source.
pub open spec fn spec_target_path(source: Seq<char>, output: Option<Seq<char>>) -> Option<
    Seq<char>,
> {
    match spec_target_file_name(source) {
        Some(name) => match output {
            Some(dir) => Some(std_join(dir, name)),
            None => Some(std_with_file_name(source, name)),
        },
        None => None,
    }
}

/// The output path for a source `.epub`.
pub fn target_path(source: &str, output: &Option<String>) -> (r: Result<String, PlanError>)
    requires
        spec_is_epub(source@),
    ensures
        match r {
            Ok(t) => spec_target_path(source@, opt_view(*output)) == Some(t@),
            Err(e) => spec_target_path(source@, opt_view(*output)) is None && e is NoFileName
                && e->source@ == source@,
        },
{
    let name = target_file_name(source)?;
    match output {
        Some(dir) => Ok(join(dir.as_str(), name.as_str())),
        None => Ok(with_file_name(source, name.as_str())),
    }
}

/// The text of an optional string.
pub open spec fn opt_view(o: Option<String>) -> Option<Seq<char>> {
    match o {
        Some(s) => Some(s@),
        None => None,
    }
}

/// A plan in progress: jobs as (source, target), skipped sources, and the
/// targets seen so far with their sources.
pub struct PlanV {
    pub jobs: Seq<(Seq<char>, Seq<char>)>,
    pub skipped: Seq<Seq<char>>,
    pub seen: Seq<(Seq<char>, Seq<char>)>,
}

/// Why planning stopped.
pub enum PlanErrV {
    NoFileName(Seq<char>),
    Collision(Seq<char>, Seq<char>, Seq<char>),
}

/// The first seen target that names the same path as `t`.
pub open spec fn first_equal(seen: Seq<(Seq<char>, Seq<char>)>, t: Seq<char>, i: int) -> Option<int>
    decreases seen.len() - i,
{
    if i < 0 || i >= seen.len() {
        None
    } else if std_paths_equal(t, seen[i].0) {
        Some(i)
    } else {
        first_equal(seen, t, i + 1)
    }
}

/// The plan for the first `n` sources.
pub open spec fn plan_upto(
    sources: Seq<Seq<char>>,
    exists: Seq<bool>,
    output: Option<Seq<char>>,
    overwrite: bool,
    n: int,
) -> Result<PlanV, PlanErrV>
    decreases n,
{
    if n <= 0 {
        Ok(PlanV { jobs: Seq::empty(), skipped: Seq::empty(), seen: Seq::empty() })
    } else {
        match plan_upto(sources, exists, output, overwrite, n - 1) {
            Err(e) => Err(e),
            Ok(p) => {
                let source = sources[n - 1];
                match spec_target_path(source, output) {
                    None => Err(PlanErrV::NoFileName(source)),
                    Some(target) => match first_equal(p.seen, target, 0) {
                        Some(k) => Err(PlanErrV::Collision(p.seen[k].1, source, target)),
                        None => {
                            let seen = p.seen.push((target, source));
                            if !std_paths_equal(target, source) && exists[n - 1] && !overwrite {
                                Ok(PlanV { jobs: p.jobs, skipped: p.skipped.push(source), seen })
                            } else {
                                Ok(PlanV { jobs: p.jobs.push((source, target)), skipped: p.skipped, seen })
                            }
                        },
                    },
                }
            },
        }
    }
}

proof fn lemma_plan_err_persists(
    sources: Seq<Seq<char>>,
    exists: Seq<bool>,
    output: Option<Seq<char>>,
    overwrite: bool,
    n: int,
    m: int,
)
    requires
        0 <= n <= m,
        plan_upto(sources, exists, output, overwrite, n) is Err,
    ensures
        plan_upto(sources, exists, output, overwrite, m) == plan_upto(
            sources,
            exists,
            output,
            overwrite,
            n,
        ),
    decreases m - n,
{
    if m > n {
        lemma_plan_err_persists(sources, exists, output, overwrite, n, m - 1);
    }
}

/// The plan for all sources; no sources at all is an error.
pub open spec fn spec_build_plan(
    input: Seq<char>,
    sources: Seq<Seq<char>>,
    exists: Seq<bool>,
    output: Option<Seq<char>>,
    overwrite: bool,
) -> Result<PlanV, Option<PlanErrV>> {
    if sources.len() == 0 {
        Err(None)
    } else {
        match plan_upto(sources, exists, output, overwrite, sources.len() as int) {
            Ok(p) => Ok(p),
            Err(e) => Err(Some(e)),
        }
    }
}

/// The texts of a list of strings.
pub open spec fn strings_view(v: Seq<String>) -> Seq<Seq<char>> {
    v.map_values(|s: String| s@)
}

/// The (source, target) texts of jobs.
pub open spec fn jobs_view(v: Seq<Job>) -> Seq<(Seq<char>, Seq<char>)> {
    v.map_values(|j: Job| (j.source@, j.target@))
}

/// The plan's jobs and skipped sources match the model's.
pub open spec fn plan_matches(plan: Plan, p: PlanV) -> bool {
    jobs_view(plan.jobs@) == p.jobs && strings_view(plan.skipped@) == p.skipped
}

/// The error matches the model's.
pub open spec fn error_matches(input: Seq<char>, e: PlanError, m: Option<PlanErrV>) -> bool {
    match m {
        None => e is NoSources && e->NoSources_input@ == input,
        Some(PlanErrV::NoFileName(s)) => e is NoFileName && e->source@ == s,
        Some(PlanErrV::Collision(a, b, t)) => e is Collision && e->first@ == a && e->second@ == b
            && e->target@ == t,
    }
}

/// Resolve the command line and the discovered sources into a concrete set
/// of conversion jobs. `target_exists[i]` tells whether the target path of
/// `sources[i]` already exists.
pub fn build_plan(cli: &Cli, sources: &Vec<String>, target_exists: &Vec<bool>) -> (r: Result<
    Plan,
    PlanError,
>)
    requires
        sources@.len() == target_exists@.len(),
        forall|i: int| 0 <= i < sources@.len() ==> spec_is_epub(#[trigger] sources@[i]@),
    ensures
        match (r, spec_build_plan(
            cli.input@,
            strings_view(sources@),
            target_exists@,
            opt_view(cli.output),
            cli.overwrite,
        )) {
            (Ok(plan), Ok(p)) => plan_matches(plan, p),
            (Err(e), Err(m)) => error_matches(cli.input@, e, m),
            _ => false,
        },
{
    let ghost sv = strings_view(sources@);
    let ghost out = opt_view(cli.output);
    if sources.len() == 0 {
        return Err(PlanError::NoSources { input: cli.input.clone() });
    }
    let mut jobs: Vec<Job> = Vec::new();
    let mut skipped: Vec<String> = Vec::new();
    let mut seen_targets: Vec<String> = Vec::new();
    let mut seen_sources: Vec<String> = Vec::new();
    let mut i: usize = 0;
    while i < sources.len()
        invariant
            sv == strings_view(sources@),
            out == opt_view(cli.output),
            sources@.len() == target_exists@.len(),
            forall|j: int| 0 <= j < sources@.len() ==> spec_is_epub(#[trigger] sources@[j]@),
            i <= sources@.len(),
            seen_targets@.len() == seen_sources@.len(),
            plan_upto(sv, target_exists@, out, cli.overwrite, i as int) matches Ok(p) && jobs_view(
                jobs@,
            ) == p.jobs && strings_view(skipped@) == p.skipped && p.seen.len()
                == seen_targets@.len() && forall|k: int|
                0 <= k < p.seen.len() ==> #[trigger] p.seen[k] == (
                    seen_targets@[k]@,
                    seen_sources@[k]@,
                ),
        decreases sources@.len() - i,
    {
        let ghost p = plan_upto(sv, target_exists@, out, cli.overwrite, i as int)->Ok_0;
        let source = &sources[i];
        assert(sv[i as int] == source@);
        let target = match target_path(source.as_str(), &cli.output) {
            Ok(t) => t,
            Err(e) => {
                proof {
                    lemma_plan_err_persists(sv, target_exists@, out, cli.overwrite, i + 1, sv.len() as int);
                }
                return Err(e);
            },
        };
        let mut k: usize = 0;
        while k < seen_targets.len()
            invariant
                seen_targets@.len() == seen_sources@.len(),
                p.seen.len() == seen_targets@.len(),
                forall|m: int| 0 <= m < p.seen.len() ==> #[trigger] p.seen[m] == (
                    seen_targets@[m]@,
                    seen_sources@[m]@,
                ),
                k <= seen_targets@.len(),
                first_equal(p.seen, target@, 0) == first_equal(p.seen, target@, k as int),
                sv == strings_view(sources@),
                out == opt_view(cli.output),
                i < sources@.len(),
                sources@.len() == target_exists@.len(),
                plan_upto(sv, target_exists@, out, cli.overwrite, i as int) == Ok::<PlanV, PlanErrV>(p),
                sv[i as int] == source@,
                spec_target_path(source@, out) == Some(target@),
            decreases seen_targets@.len() - k,
        {
            assert(p.seen[k as int].0 == seen_targets@[k as int]@);
            if paths_equal(target.as_str(), seen_targets[k].as_str()) {
                proof {
                    lemma_plan_err_persists(sv, target_exists@, out, cli.overwrite, i + 1, sv.len() as int);
                }
                return Err(
                    PlanError::Collision {
                        first: seen_sources[k].clone(),
                        second: source.clone(),
                        target,
                    },
                );
            }
            k += 1;
        }
        let ghost pj = jobs@;
        let ghost ps = skipped@;
        seen_targets.push(target.clone());
        seen_sources.push(source.clone());
        if !paths_equal(target.as_str(), source.as_str()) && target_exists[i] && !cli.overwrite {
            skipped.push(source.clone());
            assert(strings_view(skipped@) =~= strings_view(ps).push(source@));
        } else {
            jobs.push(Job { source: source.clone(), target });
            assert(jobs_view(jobs@) =~= jobs_view(pj).push((source@, target@)));
        }
        i += 1;
    }
    assert(sv.len() == sources@.len());
    Ok(Plan { jobs, skipped })
}

/// Whether `a` sorts before `b` as `Path`s compare (component by component).
pub uninterp spec fn std_path_less(a: Seq<char>, b: Seq<char>) -> bool;

/// `slice::sort_by` with `Path`'s ordering. Claimed: the result is a
/// permutation of the input in which no path sorts before an earlier one.
#[verifier::external_body]
fn sort_paths(paths: &mut Vec<String>)
    ensures
        strings_view(final(paths)@).to_multiset() == strings_view(old(paths)@).to_multiset(),
        forall|i: int, j: int|
            0 <= i < j < final(paths)@.len() ==> !std_path_less(
                #[trigger] final(paths)@[j]@,
                #[trigger] final(paths)@[i]@,
            ),
{
    paths.sort_by(|a, b| Path::new(a).cmp(Path::new(b)));
}

/// A found file is a source: an `.epub` that is not already a kepub.
pub open spec fn is_source(p: Seq<char>) -> bool {
    spec_is_epub(p) && !spec_is_kepub(p)
}

/// The found files that are sources, in the order found.
pub open spec fn sources_in(found: Seq<Seq<char>>) -> Seq<Seq<char>>
    decreases found.len(),
{
    if found.len() == 0 {
        Seq::empty()
    } else {
        let rest = sources_in(found.drop_last());
        if is_source(found.last()) {
            rest.push(found.last())
        } else {
            rest
        }
    }
}

/// The sources among the files found under an input directory: every
/// `.epub` that is not already a kepub, sorted by path.
pub fn select_sources(found: &Vec<String>) -> (sources: Vec<String>)
    ensures
        strings_view(sources@).to_multiset() == sources_in(strings_view(found@)).to_multiset(),
        forall|i: int, j: int|
            0 <= i < j < sources@.len() ==> !std_path_less(
                #[trigger] sources@[j]@,
                #[trigger] sources@[i]@,
            ),
        forall|i: int| 0 <= i < sources@.len() ==> is_source(#[trigger] sources@[i]@),
{
    let ghost fv = strings_view(found@);
    let mut out: Vec<String> = Vec::new();
    let mut i: usize = 0;
    while i < found.len()
        invariant
            fv == strings_view(found@),
            i <= found@.len(),
            strings_view(out@) == sources_in(fv.take(i as int)),
            forall|k: int| 0 <= k < out@.len() ==> is_source(#[trigger] out@[k]@),
        decreases found@.len() - i,
    {
        let p = &found[i];
        assert(fv.take(i + 1).drop_last() =~= fv.take(i as int));
        assert(fv.take(i + 1).last() == p@);
        if is_epub(p.as_str()) && !is_kepub(p.as_str()) {
            let ghost before = out@;
            out.push(p.clone());
            assert(strings_view(out@) =~= strings_view(before).push(p@));
        }
        i += 1;
    }
    assert(fv.take(fv.len() as int) =~= fv);
    let ghost unsorted = out@;
    sort_paths(&mut out);
    proof {
        assert forall|k: int| 0 <= k < out@.len() implies is_source(#[trigger] out@[k]@) by {
            let v = out@[k]@;
            let sv = strings_view(out@);
            let uv = strings_view(unsorted);
            sv.to_multiset_ensures();
            uv.to_multiset_ensures();
            assert(sv[k] == v);
            assert(sv.contains(v));
            assert(sv.to_multiset().count(v) > 0);
            assert(uv.to_multiset().count(v) > 0);
            assert(uv.contains(v));
            let m = choose|m: int| 0 <= m < uv.len() && uv[m] == v;
            assert(uv[m] == unsorted[m]@);
        }
    }
    out
}

/// A file given as the input is the one source, when it is an `.epub`.
pub fn file_source(input: &str) -> (r: Result<Vec<String>, PlanError>)
    ensures
        match r {
            Ok(v) => spec_is_epub(input@) && strings_view(v@) == seq![input@],
            Err(e) => !spec_is_epub(input@) && e is NotEpub && e->NotEpub_input@ == input@,
        },
{
    if !is_epub(input) {
        return Err(PlanError::NotEpub { input: input.to_owned() });
    }
    let v = vec![input.to_owned()];
    assert(strings_view(v@) =~= seq![input@]);
    Ok(v)
}

/// What the message of a planning error says.
pub open spec fn spec_plan_message(e: PlanError) -> Seq<char> {
    match e {
        PlanError::NoSources { input } => "no .epub files found at "@ + input@,
        PlanError::NotEpub { input } => "input file is not an .epub: "@ + input@,
        PlanError::NoFileName { .. } => "source path has no filename"@,
        PlanError::Collision { first, second, target } => "output collision: `"@ + first@
            + "` and `"@ + second@ + "` both map to `"@ + target@ + "`"@,
    }
}

impl PlanError {
    /// The error as a line for the user.
    pub fn message(&self) -> (m: String)
        ensures
            m@ == spec_plan_message(*self),
    {
        match self {
            PlanError::NoSources { input } => {
                let mut m = crate::text::owned("no .epub files found at ");
                m.push_str(input.as_str());
                m
            },
            PlanError::NotEpub { input } => {
                let mut m = crate::text::owned("input file is not an .epub: ");
                m.push_str(input.as_str());
                m
            },
            PlanError::NoFileName { .. } => crate::text::owned("source path has no filename"),
            PlanError::Collision { first, second, target } => {
                let mut m = crate::text::owned("output collision: `");
                m.push_str(first.as_str());
                m.push_str("` and `");
                m.push_str(second.as_str());
                m.push_str("` both map to `");
                m.push_str(target.as_str());
                m.push_str("`");
                m
            },
        }
    }
}

proof fn lemma_first_equal_none(seen: Seq<(Seq<char>, Seq<char>)>, t: Seq<char>, i: int)
    requires
        0 <= i,
        first_equal(seen, t, i) is None,
    ensures
        forall|k: int| i <= k < seen.len() ==> !std_paths_equal(t, #[trigger] seen[k].0),
    decreases seen.len() - i,
{
    if i < seen.len() {
        lemma_first_equal_none(seen, t, i + 1);
    }
}

/// What every plan in progress keeps: each source so far is a job or
/// skipped, each job's target is among the targets seen, and no job's target
/// names the same path as an earlier job's.
pub open spec fn target_seen(p: PlanV, t: Seq<char>) -> bool {
    exists|k: int| 0 <= k < p.seen.len() && #[trigger] p.seen[k].0 == t
}

pub open spec fn plan_consistent(p: PlanV, n: int) -> bool {
    &&& p.jobs.len() + p.skipped.len() == n
    &&& forall|a: int| 0 <= a < p.jobs.len() ==> target_seen(p, #[trigger] p.jobs[a].1)
    &&& forall|a: int, b: int|
        0 <= a < b < p.jobs.len() ==> !std_paths_equal(#[trigger] p.jobs[b].1, #[trigger] p.jobs[a].1)
}

proof fn lemma_plan_upto_consistent(
    sources: Seq<Seq<char>>,
    exists: Seq<bool>,
    output: Option<Seq<char>>,
    overwrite: bool,
    n: int,
)
    requires
        0 <= n,
        plan_upto(sources, exists, output, overwrite, n) is Ok,
    ensures
        plan_consistent(plan_upto(sources, exists, output, overwrite, n)->Ok_0, n),
    decreases n,
{
    if n > 0 {
        lemma_plan_upto_consistent(sources, exists, output, overwrite, n - 1);
        let p = plan_upto(sources, exists, output, overwrite, n - 1)->Ok_0;
        let q = plan_upto(sources, exists, output, overwrite, n)->Ok_0;
        let source = sources[n - 1];
        let target = spec_target_path(source, output)->Some_0;
        lemma_first_equal_none(p.seen, target, 0);
        assert(q.seen == p.seen.push((target, source)));
        if q.jobs.len() > p.jobs.len() {
            assert(q.jobs == p.jobs.push((source, target)));
            assert forall|a: int| 0 <= a < q.jobs.len() implies target_seen(q, #[trigger] q.jobs[a].1) by {
                if a < p.jobs.len() {
                    assert(q.jobs[a] == p.jobs[a]);
                    assert(target_seen(p, p.jobs[a].1));
                    let k = choose|k: int| 0 <= k < p.seen.len() && #[trigger] p.seen[k].0 == p.jobs[a].1;
                    assert(q.seen[k] == p.seen[k]);
                } else {
                    assert(q.seen[p.seen.len() as int].0 == target);
                }
            }
            assert forall|a: int, b: int| 0 <= a < b < q.jobs.len() implies !std_paths_equal(
                #[trigger] q.jobs[b].1,
                #[trigger] q.jobs[a].1,
            ) by {
                if b == p.jobs.len() {
                    assert(q.jobs[a] == p.jobs[a]);
                    assert(target_seen(p, p.jobs[a].1));
                    let k = choose|k: int| 0 <= k < p.seen.len() && #[trigger] p.seen[k].0 == p.jobs[a].1;
                    assert(!std_paths_equal(target, p.seen[k].0));
                }
            }
        } else {
            assert(q.jobs == p.jobs);
            assert forall|a: int| 0 <= a < q.jobs.len() implies target_seen(q, #[trigger] q.jobs[a].1) by {
                assert(q.jobs[a] == p.jobs[a]);
                assert(target_seen(p, p.jobs[a].1));
                let k = choose|k: int| 0 <= k < p.seen.len() && #[trigger] p.seen[k].0 == p.jobs[a].1;
                assert(q.seen[k] == p.seen[k]);
            }
        }
    }
}

/// A plan accounts for every source once, as a job or as skipped, and no
/// two jobs write to the same path.
pub proof fn lemma_plan_accounts_for_sources(
    input: Seq<char>,
    sources: Seq<Seq<char>>,
    exists: Seq<bool>,
    output: Option<Seq<char>>,
    overwrite: bool,
)
    requires
        spec_build_plan(input, sources, exists, output, overwrite) is Ok,
    ensures
        ({
            let p = spec_build_plan(input, sources, exists, output, overwrite)->Ok_0;
            &&& p.jobs.len() + p.skipped.len() == sources.len()
            &&& forall|a: int, b: int|
                0 <= a < b < p.jobs.len() ==> !std_paths_equal(#[trigger] p.jobs[b].1, #[trigger] p.jobs[a].1)
        }),
{
    lemma_plan_upto_consistent(sources, exists, output, overwrite, sources.len() as int);
}

proof fn lemma_plan_upto_jobs(
    sources: Seq<Seq<char>>,
    exists: Seq<bool>,
    output: Option<Seq<char>>,
    overwrite: bool,
    n: int,
)
    requires
        0 <= n,
        plan_upto(sources, exists, output, overwrite, n) is Ok,
    ensures
        ({
            let p = plan_upto(sources, exists, output, overwrite, n)->Ok_0;
            &&& forall|a: int|
                0 <= a < p.jobs.len() ==> spec_target_path((#[trigger] p.jobs[a]).0, output) == Some(
                    p.jobs[a].1,
                )
            &&& overwrite ==> p.skipped.len() == 0
            &&& (forall|i: int| 0 <= i < n ==> !#[trigger] exists[i]) ==> p.skipped.len() == 0
            &&& forall|a: int|
                0 <= a < p.skipped.len() ==> !overwrite && exists_for(
                    sources,
                    exists,
                    #[trigger] p.skipped[a],
                    n,
                )
        }),
    decreases n,
{
    if n > 0 {
        lemma_plan_upto_jobs(sources, exists, output, overwrite, n - 1);
        let p = plan_upto(sources, exists, output, overwrite, n - 1)->Ok_0;
        let q = plan_upto(sources, exists, output, overwrite, n)->Ok_0;
        assert forall|a: int| 0 <= a < q.jobs.len() implies spec_target_path(
            (#[trigger] q.jobs[a]).0,
            output,
        ) == Some(q.jobs[a].1) by {
            if a < p.jobs.len() {
                assert(q.jobs[a] == p.jobs[a]);
            }
        }
        if forall|i: int| 0 <= i < n ==> !#[trigger] exists[i] {
            assert(!exists[n - 1]);
        }
        assert forall|a: int| 0 <= a < q.skipped.len() implies !overwrite && exists_for(
            sources,
            exists,
            #[trigger] q.skipped[a],
            n,
        ) by {
            if a < p.skipped.len() {
                assert(q.skipped[a] == p.skipped[a]);
                let i = choose|i: int| 0 <= i < n - 1 && sources[i] == p.skipped[a] && exists[i];
                assert(0 <= i < n && sources[i] == q.skipped[a] && exists[i]);
            } else {
                assert(q.skipped[a] == sources[n - 1]);
                assert(exists[n - 1]);
            }
        }
    }
}

/// One of the first `n` sources is `s` and its target exists.
pub open spec fn exists_for(sources: Seq<Seq<char>>, exists: Seq<bool>, s: Seq<char>, n: int) -> bool {
    exists|i: int| 0 <= i < n && sources[i] == s && exists[i]
}

/// Each job writes its source's kepub where `target_path` puts it. A source
/// is skipped only when its target already exists and `--overwrite` is not
/// given: with `--overwrite`, or when no target exists yet, nothing is
/// skipped.
pub proof fn lemma_plan_jobs_and_skips(
    input: Seq<char>,
    sources: Seq<Seq<char>>,
    exists: Seq<bool>,
    output: Option<Seq<char>>,
    overwrite: bool,
)
    requires
        spec_build_plan(input, sources, exists, output, overwrite) is Ok,
    ensures
        ({
            let p = spec_build_plan(input, sources, exists, output, overwrite)->Ok_0;
            &&& forall|a: int|
                0 <= a < p.jobs.len() ==> spec_target_path((#[trigger] p.jobs[a]).0, output) == Some(
                    p.jobs[a].1,
                )
            &&& overwrite ==> p.skipped.len() == 0
            &&& (forall|i: int| 0 <= i < sources.len() ==> !#[trigger] exists[i]) ==> p.skipped.len()
                == 0
            &&& forall|a: int|
                0 <= a < p.skipped.len() ==> exists_for(
                    sources,
                    exists,
                    #[trigger] p.skipped[a],
                    sources.len() as int,
                )
        }),
{
    lemma_plan_upto_jobs(sources, exists, output, overwrite, sources.len() as int);
}

/// Whether a job run with `--in-place` removes its source afterwards: only
/// when the kepub was written to another path.
pub fn removes_source(job: &Job, in_place: bool) -> (r: bool)
    ensures
        r == (in_place && !std_paths_equal(job.source@, job.target@)),
{
    in_place && !paths_equal(job.source.as_str(), job.target.as_str())
}

} // verus!
