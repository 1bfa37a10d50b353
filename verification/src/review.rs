//! The `/review` command: bundling code into a prompt.
//!
//! A file that is named gets the full budget. Files that a directory brings
//! along share a smaller one, and the bundle stops growing at a limit. What
//! is left out is counted, so that a partial review does not read as a
//! complete one.
use vstd::prelude::*;

use crate::compaction::count_bytes;
use crate::text::{concat2, concat3, decimal_text};
use crate::truncate::{format_size, truncate_head, TruncationOptions};
use crate::{compaction, paths, text, truncate};

verus! {

/// How many files a directory contributes at most.
pub const MAX_WALK_FILES: usize = 40;

/// A bundle of this many bytes takes no further file of a directory.
pub const MAX_BUNDLE_BYTES: u64 = 153_600;

/// What the model is asked to do.
pub const INSTRUCTIONS: &'static str = "Review the following code for correctness bugs, security issues, and worthwhile simplifications. Be specific: cite file paths and line numbers, explain why each finding is a problem, and rank findings by severity. Do not modify any files - report only.";

/// The budget of a file that a directory brings along.
#[verifier::allow_in_spec]
pub fn walk_options() -> TruncationOptions
    returns
        (TruncationOptions { max_lines: Some(400usize), max_bytes: Some(16_384u32) }),
{
    TruncationOptions { max_lines: Some(400usize), max_bytes: Some(16_384u32) }
}

/// The budget of a file that is named, and of a diff.
#[verifier::allow_in_spec]
pub fn full_options() -> TruncationOptions
    returns
        (TruncationOptions { max_lines: None, max_bytes: None }),
{
    TruncationOptions { max_lines: None, max_bytes: None }
}

/// What a name of the command line leads to. Files that cannot be read as
/// text have no content.
#[derive(Debug)]
pub enum ReviewItem {
    File { path: String, content: Option<String> },
    Directory { files: Vec<(String, Option<String>)> },
    Missing,
}

/// What was gathered for a review: the output of `git diff`, or what the
/// names lead to.
#[derive(Debug)]
pub enum Gathered {
    Diff(Result<String, String>),
    Items(Vec<ReviewItem>),
}

/// Whether a review is about the changes.
pub open spec fn wants_diff(args: Seq<String>) -> bool {
    exists|k: int| 0 <= k < args.len() && (#[trigger] args[k])@ == "--diff"@
}

/// Whether a review is about the changes.
pub fn is_diff_review(args: &Vec<String>) -> (r: bool)
    ensures
        r == wants_diff(args@),
{
    let mut k: usize = 0;
    while k < args.len()
        invariant
            k <= args@.len(),
            forall|j: int| 0 <= j < k ==> (#[trigger] args@[j])@ != "--diff"@,
        decreases args@.len() - k,
    {
        if text::same_str(args[k].as_str(), "--diff") {
            return true;
        }
        k += 1;
    }
    false
}

/// A path below a directory without that directory.
pub open spec fn shown_path(path: Seq<char>, cwd: Seq<char>) -> Seq<char> {
    match paths::rest_of(path, cwd) {
        Some(rest) => rest,
        None => path,
    }
}

/// Shows a path: below the working directory without it.
pub fn display_path(path: &str, cwd: &str) -> (r: String)
    ensures
        r@ == shown_path(path@, cwd@),
{
    match paths::strip_base(path, cwd) {
        Some(rest) => rest,
        None => path.to_owned(),
    }
}

/// The note behind a text that was cut: how many of its lines and bytes are
/// shown.
pub open spec fn truncation_note(
    what: Seq<char>,
    lines: nat,
    of_lines: nat,
    bytes: nat,
    of_bytes: nat,
) -> Seq<char> {
    "\n["@ + what + " truncated: showing first "@ + text::decimal(lines) + " of "@ + text::decimal(
        of_lines,
    ) + " lines ("@ + truncate::size_text(bytes) + " of "@ + truncate::size_text(of_bytes) + ")]"@
}

fn push_note(
    out: &mut String,
    what: &str,
    lines: usize,
    of_lines: usize,
    bytes: u64,
    of_bytes: u64,
)
    ensures
        final(out)@ == old(out)@ + truncation_note(
            what@,
            lines as nat,
            of_lines as nat,
            bytes as nat,
            of_bytes as nat,
        ),
{
    let ghost before = out@;
    out.push_str("\n[");
    out.push_str(what);
    out.push_str(" truncated: showing first ");
    out.push_str(decimal_text(lines as u64).as_str());
    out.push_str(" of ");
    out.push_str(decimal_text(of_lines as u64).as_str());
    out.push_str(" lines (");
    out.push_str(format_size(bytes).as_str());
    out.push_str(" of ");
    out.push_str(format_size(of_bytes).as_str());
    out.push_str(")]");
    assert(out@ =~= before + truncation_note(
        what@,
        lines as nat,
        of_lines as nat,
        bytes as nat,
        of_bytes as nat,
    ));
}

/// A text as it is shown within a budget.
pub open spec fn shown_text(what: Seq<char>, content: Seq<char>, options: TruncationOptions) -> Seq<
    char,
> {
    let lines = truncate::pieces(content);
    let k = truncate::kept_lines(
        lines,
        0,
        truncate::line_limit(options),
        truncate::byte_limit(options),
    );
    if k < lines.len() {
        let kept = text::joined(lines.take(k), "\n"@);
        kept + truncation_note(
            what,
            k as nat,
            lines.len(),
            compaction::capped(compaction::byte_len(kept)),
            compaction::capped(compaction::byte_len(content)),
        )
    } else {
        content
    }
}

fn push_shown(out: &mut String, what: &str, content: &str, options: TruncationOptions)
    ensures
        final(out)@ == old(out)@ + shown_text(what@, content@, options),
{
    let ghost before = out@;
    let t = truncate_head(content, options);
    out.push_str(t.content.as_str());
    if t.truncated {
        push_note(out, what, t.output_lines, t.total_lines, t.output_bytes, t.total_bytes);
    }
    assert(out@ =~= before + shown_text(what@, content@, options));
}

/// A file in a bundle.
pub open spec fn file_section(
    path: Seq<char>,
    cwd: Seq<char>,
    content: Seq<char>,
    options: TruncationOptions,
) -> Seq<char> {
    "=== file: "@ + shown_path(path, cwd) + " ===\n"@ + shown_text("file"@, content, options)
        + "\n\n"@
}

fn push_file(out: &mut String, path: &str, cwd: &str, content: &str, options: TruncationOptions)
    ensures
        final(out)@ == old(out)@ + file_section(path@, cwd@, content@, options),
{
    let ghost before = out@;
    out.push_str("=== file: ");
    out.push_str(display_path(path, cwd).as_str());
    out.push_str(" ===\n");
    push_shown(out, "file", content, options);
    out.push_str("\n\n");
    assert(out@ =~= before + file_section(path@, cwd@, content@, options));
}

/// A bundle while a directory is swept up: how many files are in, how many
/// are out.
pub struct SweepView {
    pub bundle: Seq<char>,
    pub included: nat,
    pub omitted: nat,
}

/// Whether a bundle takes another file of a directory.
pub open spec fn has_room(v: SweepView) -> bool {
    v.included < MAX_WALK_FILES && compaction::byte_len(v.bundle) < MAX_BUNDLE_BYTES
}

/// A bundle after the first `n` files of a directory.
pub open spec fn swept(
    bundle: Seq<char>,
    files: Seq<(String, Option<String>)>,
    cwd: Seq<char>,
    n: int,
) -> SweepView
    decreases n,
{
    if n <= 0 {
        SweepView { bundle, included: 0, omitted: 0 }
    } else {
        let v = swept(bundle, files, cwd, n - 1);
        match files[n - 1].1 {
            Some(content) => if has_room(v) {
                SweepView {
                    bundle: v.bundle + file_section(
                        files[n - 1].0@,
                        cwd,
                        content@,
                        walk_options(),
                    ),
                    included: v.included + 1,
                    omitted: v.omitted,
                }
            } else {
                SweepView { omitted: v.omitted + 1, ..v }
            },
            None => SweepView { omitted: v.omitted + 1, ..v },
        }
    }
}

/// A bundle with a directory.
pub open spec fn with_directory(
    bundle: Seq<char>,
    files: Seq<(String, Option<String>)>,
    cwd: Seq<char>,
) -> Seq<char> {
    let v = swept(bundle, files, cwd, files.len() as int);
    if v.omitted > 0 {
        v.bundle + "["@ + text::decimal(v.omitted) + " of "@ + text::decimal(files.len())
            + " files omitted (bundle limits or binary content) - ask for specific paths to review them]\n\n"@
    } else {
        v.bundle
    }
}

fn collect_directory(out: &mut String, files: &Vec<(String, Option<String>)>, cwd: &str)
    ensures
        final(out)@ == with_directory(old(out)@, files@, cwd@),
{
    let ghost start = out@;
    let mut included: usize = 0;
    let mut omitted: usize = 0;
    let mut i: usize = 0;
    while i < files.len()
        invariant
            i <= files@.len(),
            included + omitted == i,
            swept(start, files@, cwd@, i as int) == (SweepView {
                bundle: out@,
                included: included as nat,
                omitted: omitted as nat,
            }),
        decreases files@.len() - i,
    {
        let room = included < MAX_WALK_FILES && count_bytes(out.as_str()) < MAX_BUNDLE_BYTES;
        match &files[i].1 {
            Some(content) => if room {
                push_file(out, files[i].0.as_str(), cwd, content.as_str(), walk_options());
                included += 1;
            } else {
                omitted += 1;
            },
            None => {
                omitted += 1;
            },
        }
        i += 1;
    }
    if omitted > 0 {
        out.push_str("[");
        out.push_str(decimal_text(omitted as u64).as_str());
        out.push_str(" of ");
        out.push_str(decimal_text(files.len() as u64).as_str());
        out.push_str(
            " files omitted (bundle limits or binary content) - ask for specific paths to review them]\n\n",
        );
    }
}

/// A bundle with the first `n` items, up to the first that is missing.
pub open spec fn bundled(items: Seq<ReviewItem>, cwd: Seq<char>, n: int) -> Seq<char>
    decreases n,
{
    if n <= 0 {
        Seq::empty()
    } else {
        let before = bundled(items, cwd, n - 1);
        match items[n - 1] {
            ReviewItem::File { path, content } => match content {
                Some(c) => before + file_section(path@, cwd, c@, full_options()),
                None => before,
            },
            ReviewItem::Directory { files } => with_directory(before, files@, cwd),
            ReviewItem::Missing => before,
        }
    }
}

/// The first item from `from` on that is missing.
pub open spec fn first_missing(items: Seq<ReviewItem>, from: int) -> Option<int>
    decreases items.len() - from,
{
    if from >= items.len() {
        None
    } else if items[from] is Missing {
        Some(from)
    } else {
        first_missing(items, from + 1)
    }
}

/// What a review comes to: a prompt, or why there is none.
pub open spec fn review_of(args: Seq<String>, gathered: Gathered, cwd: Seq<char>) -> Result<
    Seq<char>,
    Seq<char>,
> {
    if wants_diff(args) && args.len() > 1 {
        Err("`/review --diff` cannot be combined with paths"@)
    } else {
        match gathered {
            Gathered::Diff(Err(e)) => Err("cannot run git diff: "@ + e@),
            Gathered::Diff(Ok(diff)) => if text::is_blank(diff@) {
                Err("no changes to review (git diff is empty)"@)
            } else {
                Ok(
                    INSTRUCTIONS@
                        + "\n\nThe changes below are a git diff; review the CHANGED code in context.\n\n=== git diff (HEAD vs working tree) ===\n"@
                        + shown_text("diff"@, diff@, full_options()),
                )
            },
            Gathered::Items(items) => match first_missing(items@, 0) {
                Some(k) => Err("path not found: "@ + args[k]@),
                None => {
                    let bundle = bundled(items@, cwd, items@.len() as int);
                    if bundle.len() == 0 {
                        Err("nothing reviewable found (no readable text files)"@)
                    } else {
                        Ok(INSTRUCTIONS@ + "\n\n"@ + bundle)
                    }
                },
            },
        }
    }
}

/// Whether what was gathered answers the command: for a review of the
/// changes the diff, for named paths one item each, and for the whole
/// project one directory.
pub open spec fn answers(args: Seq<String>, gathered: Gathered) -> bool {
    match gathered {
        Gathered::Diff(_) => wants_diff(args),
        Gathered::Items(items) => if args.len() == 0 {
            items@.len() == 1 && items@[0] is Directory
        } else {
            !wants_diff(args) && items@.len() == args.len()
        },
    }
}

/// Writes the prompt for a review from what was gathered for it.
pub fn build_review_prompt(cwd: &str, args: &Vec<String>, gathered: &Gathered) -> (r: Result<
    String,
    String,
>)
    requires
        answers(args@, *gathered) || (wants_diff(args@) && args@.len() > 1),
    ensures
        match (r, review_of(args@, *gathered, cwd@)) {
            (Ok(a), Ok(b)) => a@ == b,
            (Err(a), Err(b)) => a@ == b,
            _ => false,
        },
{
    if is_diff_review(args) && args.len() > 1 {
        return Err("`/review --diff` cannot be combined with paths".to_owned());
    }
    match gathered {
        Gathered::Diff(Err(e)) => Err(concat2("cannot run git diff: ", e.as_str())),
        Gathered::Diff(Ok(diff)) => {
            if text::blank(diff.as_str()) {
                return Err("no changes to review (git diff is empty)".to_owned());
            }
            let mut out = concat2(
                INSTRUCTIONS,
                "\n\nThe changes below are a git diff; review the CHANGED code in context.\n\n=== git diff (HEAD vs working tree) ===\n",
            );
            push_shown(&mut out, "diff", diff.as_str(), full_options());
            Ok(out)
        },
        Gathered::Items(items) => {
            let mut bundle = String::new();
            let mut i: usize = 0;
            while i < items.len()
                invariant
                    i <= items@.len(),
                    *gathered == Gathered::Items(*items),
                    answers(args@, *gathered),
                    !(wants_diff(args@) && args@.len() > 1),
                    first_missing(items@, 0) == first_missing(items@, i as int),
                    bundle@ == bundled(items@, cwd@, i as int),
                decreases items@.len() - i,
            {
                match &items[i] {
                    ReviewItem::File { path, content } => {
                        if let Some(c) = content {
                            push_file(&mut bundle, path.as_str(), cwd, c.as_str(), full_options());
                        }
                    },
                    ReviewItem::Directory { files } => collect_directory(&mut bundle, files, cwd),
                    ReviewItem::Missing => {
                        return Err(concat2("path not found: ", args[i].as_str()));
                    },
                }
                i += 1;
            }
            if bundle.as_str().is_empty() {
                return Err("nothing reviewable found (no readable text files)".to_owned());
            }
            Ok(concat3(INSTRUCTIONS, "\n\n", bundle.as_str()))
        },
    }
}

/// A directory never contributes more files than the limit, and every file
/// of it is either in the bundle or counted as omitted.
pub proof fn law_sweeps_are_bounded_and_complete(
    bundle: Seq<char>,
    files: Seq<(String, Option<String>)>,
    cwd: Seq<char>,
    n: int,
)
    requires
        0 <= n <= files.len(),
    ensures
        swept(bundle, files, cwd, n).included <= MAX_WALK_FILES,
        swept(bundle, files, cwd, n).included + swept(bundle, files, cwd, n).omitted == n,
    decreases n,
{
    if n > 0 {
        law_sweeps_are_bounded_and_complete(bundle, files, cwd, n - 1);
    }
}

/// A file that fits its budget is shown whole and without a note; one that
/// does not is followed by a note.
pub proof fn law_files_within_the_budget_are_shown_whole(
    what: Seq<char>,
    content: Seq<char>,
    options: TruncationOptions,
)
    ensures
        ({
            let lines = truncate::pieces(content);
            let k = truncate::kept_lines(
                lines,
                0,
                truncate::line_limit(options),
                truncate::byte_limit(options),
            );
            let kept = text::joined(lines.take(k), seq!['\n']);
            &&& k == lines.len() ==> shown_text(what, content, options) == content
            &&& k < lines.len() ==> shown_text(what, content, options).len() > kept.len()
                && shown_text(what, content, options).take(kept.len() as int) == kept
        }),
{
    truncate::law_cuts_keep_all_that_fits(content, options);
    reveal_strlit("\n");
    assert("\n"@ =~= seq!['\n']);
    reveal_strlit("\n[");
    let lines = truncate::pieces(content);
    let k = truncate::kept_lines(
        lines,
        0,
        truncate::line_limit(options),
        truncate::byte_limit(options),
    );
    let kept = text::joined(lines.take(k), "\n"@);
    if k < lines.len() {
        assert(shown_text(what, content, options).take(kept.len() as int) =~= kept);
    }
}

proof fn lemma_swept_grows(
    bundle: Seq<char>,
    files: Seq<(String, Option<String>)>,
    cwd: Seq<char>,
    n: int,
)
    requires
        0 <= n <= files.len(),
    ensures
        bundle.len() <= swept(bundle, files, cwd, n).bundle.len(),
        swept(bundle, files, cwd, n).bundle.take(bundle.len() as int) == bundle,
    decreases n,
{
    let now = swept(bundle, files, cwd, n).bundle;
    if n > 0 {
        lemma_swept_grows(bundle, files, cwd, n - 1);
        let before = swept(bundle, files, cwd, n - 1).bundle;
        assert(now.take(bundle.len() as int) =~= before.take(bundle.len() as int));
    } else {
        assert(now.take(bundle.len() as int) =~= bundle);
    }
}

proof fn lemma_bundle_grows(items: Seq<ReviewItem>, cwd: Seq<char>, m: int, n: int)
    requires
        0 <= m <= n <= items.len(),
    ensures
        bundled(items, cwd, m).len() <= bundled(items, cwd, n).len(),
        bundled(items, cwd, n).take(bundled(items, cwd, m).len() as int) == bundled(items, cwd, m),
    decreases n - m,
{
    let old = bundled(items, cwd, m);
    let now = bundled(items, cwd, n);
    if m < n {
        lemma_bundle_grows(items, cwd, m, n - 1);
        let before = bundled(items, cwd, n - 1);
        if let ReviewItem::Directory { files } = items[n - 1] {
            lemma_swept_grows(before, files@, cwd, files@.len() as int);
            let v = swept(before, files@, cwd, files@.len() as int);
            assert(now.take(before.len() as int) =~= v.bundle.take(before.len() as int));
        } else {
            assert(now.take(before.len() as int) =~= before);
        }
        assert(now.take(old.len() as int) =~= now.take(before.len() as int).take(
            old.len() as int,
        ));
    } else {
        assert(now.take(old.len() as int) =~= old);
    }
}

/// Every named file that can be read is in the bundle, under its path and
/// with what it holds, whatever comes before and after it.
pub proof fn law_every_named_file_is_bundled(items: Seq<ReviewItem>, cwd: Seq<char>, k: int)
    requires
        0 <= k < items.len(),
        items[k] is File,
        items[k]->content is Some,
    ensures
        text::stands_in(
            "=== file: "@ + shown_path(items[k]->path@, cwd) + " ===\n"@ + shown_text(
                "file"@,
                items[k]->content.unwrap()@,
                full_options(),
            ),
            bundled(items, cwd, items.len() as int),
        ),
{
    let n = items.len() as int;
    lemma_bundle_grows(items, cwd, k + 1, n);
    let before = bundled(items, cwd, k);
    let upto = bundled(items, cwd, k + 1);
    let whole = bundled(items, cwd, n);
    let part = "=== file: "@ + shown_path(items[k]->path@, cwd) + " ===\n"@ + shown_text(
        "file"@,
        items[k]->content.unwrap()@,
        full_options(),
    );
    let rest = "\n\n"@ + whole.skip(upto.len() as int);
    assert(upto =~= before + part + "\n\n"@);
    assert(whole =~= whole.take(upto.len() as int) + whole.skip(upto.len() as int));
    assert(whole =~= before + part + rest);
}

/// A prompt asks for the review in the same words whatever is reviewed, and
/// holds all of the bundle or of the diff.
pub proof fn law_prompts_hold_what_is_reviewed(
    args: Seq<String>,
    gathered: Gathered,
    cwd: Seq<char>,
)
    ensures
        review_of(args, gathered, cwd) matches Ok(prompt) ==> {
            &&& prompt.len() >= INSTRUCTIONS@.len()
            &&& prompt.take(INSTRUCTIONS@.len() as int) == INSTRUCTIONS@
            &&& gathered matches Gathered::Diff(Ok(diff)) ==> text::stands_in(
                shown_text("diff"@, diff@, full_options()),
                prompt,
            )
            &&& gathered matches Gathered::Items(items) ==> text::stands_in(
                bundled(items@, cwd, items@.len() as int),
                prompt,
            )
        },
{
    if let Ok(prompt) = review_of(args, gathered, cwd) {
        assert(prompt.take(INSTRUCTIONS@.len() as int) =~= INSTRUCTIONS@);
        match gathered {
            Gathered::Diff(Ok(diff)) => {
                let head = INSTRUCTIONS@
                    + "\n\nThe changes below are a git diff; review the CHANGED code in context.\n\n=== git diff (HEAD vs working tree) ===\n"@;
                let part = shown_text("diff"@, diff@, full_options());
                assert(prompt =~= head + part + Seq::empty());
            },
            Gathered::Items(items) => {
                let head = INSTRUCTIONS@ + "\n\n"@;
                let part = bundled(items@, cwd, items@.len() as int);
                assert(prompt =~= head + part + Seq::empty());
            },
            _ => {},
        }
    }
}

/// There is no review without anything to review: not of a path that is not
/// there, not of an empty diff, and not of both at once.
pub proof fn law_nothing_is_reviewed_without_code(
    args: Seq<String>,
    gathered: Gathered,
    cwd: Seq<char>,
)
    ensures
        wants_diff(args) && args.len() > 1 ==> review_of(args, gathered, cwd) is Err,
        gathered matches Gathered::Diff(Ok(diff)) && text::is_blank(diff@) ==> review_of(
            args,
            gathered,
            cwd,
        ) is Err,
        gathered matches Gathered::Diff(Err(_)) ==> review_of(args, gathered, cwd) is Err,
        gathered matches Gathered::Items(items) && (exists|k: int|
            0 <= k < items@.len() && (#[trigger] items@[k]) is Missing) ==> review_of(
            args,
            gathered,
            cwd,
        ) is Err,
        !wants_diff(args) && (gathered matches Gathered::Items(items) && bundled(
            items@,
            cwd,
            items@.len() as int,
        ).len() > 0 && (forall|k: int|
            0 <= k < items@.len() ==> !((#[trigger] items@[k]) is Missing))) ==> review_of(
            args,
            gathered,
            cwd,
        ) is Ok,
{
    if let Gathered::Items(items) = gathered {
        lemma_first_missing(items@, 0);
    }
}

proof fn lemma_first_missing(items: Seq<ReviewItem>, from: int)
    requires
        0 <= from,
    ensures
        match first_missing(items, from) {
            Some(k) => from <= k < items.len() && items[k] is Missing,
            None => forall|k: int| from <= k < items.len() ==> !((#[trigger] items[k]) is Missing),
        },
    decreases items.len() - from,
{
    if from < items.len() && !(items[from] is Missing) {
        lemma_first_missing(items, from + 1);
    }
}

/// A directory adds a file that can be read unless the bundle is full: of 40
/// files of it, or of 153600 bytes.
pub proof fn law_directories_add_files_until_full(
    bundle: Seq<char>,
    files: Seq<(String, Option<String>)>,
    cwd: Seq<char>,
    n: int,
)
    requires
        0 <= n < files.len(),
        files[n].1 is Some,
    ensures
        ({
            let before = swept(bundle, files, cwd, n);
            let after = swept(bundle, files, cwd, n + 1);
            if before.included < 40 && vstd::utf8::encode_utf8(before.bundle).len() < 153_600 {
                after.included == before.included + 1 && after.omitted == before.omitted
                    && after.bundle == before.bundle + "=== file: "@ + shown_path(files[n].0@, cwd)
                    + " ===\n"@ + shown_text(
                    "file"@,
                    files[n].1.unwrap()@,
                    TruncationOptions { max_lines: Some(400), max_bytes: Some(16_384) },
                ) + "\n\n"@
            } else {
                after.bundle == before.bundle && after.omitted == before.omitted + 1
            }
        }),
{
    let before = swept(bundle, files, cwd, n);
    let after = swept(bundle, files, cwd, n + 1);
    compaction::law_bytes_are_those_of_the_encoding(before.bundle);
    if has_room(before) {
        assert(after.bundle =~= before.bundle + "=== file: "@ + shown_path(files[n].0@, cwd)
            + " ===\n"@ + shown_text(
            "file"@,
            files[n].1.unwrap()@,
            TruncationOptions { max_lines: Some(400), max_bytes: Some(16_384) },
        ) + "\n\n"@);
    }
}

/// A path below the working directory is shown without it, and any other as
/// it is.
pub proof fn law_paths_below_are_shown_short(cwd: Seq<char>, parts: Seq<Seq<char>>, path: Seq<char>)
    requires
        cwd.len() > 0,
        cwd.last() != '/',
        parts.len() > 0,
        paths::are_parts(parts),
    ensures
        shown_path(cwd + seq!['/'] + text::joined(parts, seq!['/']), cwd) == text::joined(
            parts,
            seq!['/'],
        ),
        paths::rest_of(path, cwd) is None ==> shown_path(path, cwd) == path,
{
    paths::law_what_was_joined_is_below(cwd, parts);
}

/// The flag for a review of the changes may stand anywhere among the
/// arguments.
pub proof fn law_the_flag_may_stand_anywhere(args: Seq<String>, k: int)
    ensures
        0 <= k < args.len() && args[k]@ == "--diff"@ ==> wants_diff(args),
        (forall|j: int| 0 <= j < args.len() ==> (#[trigger] args[j])@ != "--diff"@) ==> !wants_diff(
            args,
        ),
{
}

} // verus!
