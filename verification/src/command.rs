//! How Cargo is asked for the metadata, and where the lock file is looked for.
use crate::error::RecipeError;
use crate::text::{pieces, pieces_of, strip_prefix, trim_white, trimmed};
use vstd::prelude::*;

verus! {

/// What is asked of `cargo metadata`.
#[derive(Debug)]
pub struct MetadataRequest {
    /// A manifest is given; without one Cargo looks for it.
    pub has_manifest_path: bool,
    /// The target triple; the host is the target when it is blank.
    pub target: String,
    /// The target triple of the machine that builds.
    pub host: String,
    pub features: String,
    pub no_default_features: bool,
}

/// An argument of a command.
#[derive(Debug, PartialEq, Eq)]
pub enum CommandArg {
    Text(String),
    /// The place of the manifest, as the user gave it.
    ManifestPath,
}

pub enum CommandArgView {
    Text(Seq<char>),
    ManifestPath,
}

impl DeepView for CommandArg {
    type V = CommandArgView;

    open spec fn deep_view(&self) -> CommandArgView {
        match self {
            CommandArg::Text(s) => CommandArgView::Text(s@),
            CommandArg::ManifestPath => CommandArgView::ManifestPath,
        }
    }
}

/// An option with a value, unless the value is blank.
pub open spec fn option_unless_blank(option: Seq<char>, value: Seq<char>) -> Seq<CommandArgView> {
    if trim_white(value).len() == 0 {
        Seq::empty()
    } else {
        seq![CommandArgView::Text(option), CommandArgView::Text(trim_white(value))]
    }
}

/// The platform that the dependencies are resolved for: the target, or the host when no target is
/// given.
pub open spec fn platform(request: MetadataRequest) -> Seq<char> {
    if trim_white(request.target@).len() == 0 {
        trim_white(request.host@)
    } else {
        trim_white(request.target@)
    }
}

/// The arguments with which Cargo is run.
pub open spec fn metadata_command(request: MetadataRequest) -> Seq<CommandArgView> {
    seq![
        CommandArgView::Text("metadata"@),
        CommandArgView::Text("--format-version"@),
        CommandArgView::Text("1"@),
        CommandArgView::Text("--locked"@),
    ] + (if request.has_manifest_path {
        seq![CommandArgView::Text("--manifest-path"@), CommandArgView::ManifestPath]
    } else {
        Seq::empty()
    }) + seq![
        CommandArgView::Text("--filter-platform"@),
        CommandArgView::Text(platform(request)),
    ] + (if request.no_default_features {
        seq![CommandArgView::Text("--no-default-features"@)]
    } else {
        Seq::empty()
    }) + option_unless_blank("--features"@, request.features@)
}

fn push_text(args: &mut Vec<CommandArg>, text: &str)
    ensures
        final(args).deep_view() == old(args).deep_view().push(CommandArgView::Text(text@)),
{
    args.push(CommandArg::Text(text.to_string()));
    assert(args.deep_view() =~= old(args).deep_view().push(CommandArgView::Text(text@)));
}

fn push_option(args: &mut Vec<CommandArg>, option: &str, value: &str)
    ensures
        final(args).deep_view() == old(args).deep_view() + option_unless_blank(option@, value@),
{
    let value_text = trimmed(value);
    if !value_text.is_empty() {
        push_text(args, option);
        push_text(args, value_text);
    }
    assert(args.deep_view() =~= old(args).deep_view() + option_unless_blank(option@, value@));
}

/// Whether the host has to be known: no target is given.
pub fn needs_host(target: &str) -> (r: bool)
    ensures
        r == (trim_white(target@).len() == 0),
{
    trimmed(target).is_empty()
}

/// The line tells the host.
pub open spec fn is_host_line(line: Seq<char>) -> bool {
    "host: "@.is_prefix_of(line)
}

/// The target triple of the host, out of what Cargo prints of its version: what follows `host: `
/// on the first line that starts with it.
pub fn host_triple(version: &str) -> (r: Option<String>)
    ensures
        ({
            let lines = pieces(version@, '\n');
            match r {
                Some(host) => exists|i: int|
                    0 <= i < lines.len() && is_host_line(#[trigger] lines[i]) && host@
                        == lines[i].skip("host: "@.len() as int) && forall|j: int|
                        0 <= j < i ==> !is_host_line(#[trigger] lines[j]),
                None => forall|i: int| 0 <= i < lines.len() ==> !is_host_line(#[trigger] lines[i]),
            }
        }),
{
    let lines = pieces_of(version, '\n');
    let ghost all = lines.deep_view();
    let mut i: usize = 0;
    while i < lines.len()
        invariant
            all == lines.deep_view(),
            all == pieces(version@, '\n'),
            all.len() == lines@.len(),
            i <= lines@.len(),
            forall|j: int| 0 <= j < i ==> !is_host_line(#[trigger] all[j]),
        decreases lines@.len() - i,
    {
        assert(all[i as int] == lines@[i as int]@);
        if let Some(host) = strip_prefix(lines[i], "host: ") {
            return Some(host.to_string());
        }
        i = i + 1;
    }
    None
}

/// Without a target, Cargo is run as for the host as the target.
pub proof fn lemma_blank_target_is_host(blank: MetadataRequest, given: MetadataRequest)
    requires
        trim_white(blank.target@).len() == 0,
        given.target@ == blank.host@,
        given.host@ == blank.host@,
        given.has_manifest_path == blank.has_manifest_path,
        given.features@ == blank.features@,
        given.no_default_features == blank.no_default_features,
    ensures
        metadata_command(blank) == metadata_command(given),
{
    assert(platform(blank) =~= platform(given));
}

/// The arguments with which Cargo is run.
pub fn metadata_args(request: &MetadataRequest) -> (args: Vec<CommandArg>)
    ensures
        args.deep_view() == metadata_command(*request),
{
    let mut args: Vec<CommandArg> = Vec::new();
    push_text(&mut args, "metadata");
    push_text(&mut args, "--format-version");
    push_text(&mut args, "1");
    push_text(&mut args, "--locked");
    if request.has_manifest_path {
        push_text(&mut args, "--manifest-path");
        let ghost before = args.deep_view();
        args.push(CommandArg::ManifestPath);
        assert(args.deep_view() =~= before.push(CommandArgView::ManifestPath));
    }
    push_text(&mut args, "--filter-platform");
    if needs_host(request.target.as_str()) {
        push_text(&mut args, trimmed(request.host.as_str()));
    } else {
        push_text(&mut args, trimmed(request.target.as_str()));
    }
    if request.no_default_features {
        push_text(&mut args, "--no-default-features");
    }
    push_option(&mut args, "--features", request.features.as_str());
    assert(args.deep_view() =~= metadata_command(*request));
    args
}

/// What a run of Cargo comes to: an error that tells what it printed, unless it succeeded.
pub fn check_metadata_run(success: bool, stderr: &str) -> (r: Result<(), RecipeError>)
    ensures
        match r {
            Ok(_) => success,
            Err(e) => !success && (e matches RecipeError::MetadataFailed { stderr: s } && s@
                == stderr@),
        },
{
    if success {
        Ok(())
    } else {
        Err(RecipeError::MetadataFailed { stderr: stderr.to_string() })
    }
}

/// What to do next in the search for the lock file. Directories are numbered from the start up.
#[derive(Clone, Copy, Debug, PartialEq, Eq, Structural)]
pub enum LockStep {
    /// Look whether the directory has a lock file.
    Probe(usize),
    /// Read the lock file of the directory.
    Load(usize),
    /// No directory has one.
    NotFound,
}

/// The next step of the search through `dirs` directories, after the first ones were probed with
/// the answers `probed`.
pub fn lock_search_step(dirs: usize, probed: &Vec<bool>) -> (step: LockStep)
    ensures
        match step {
            LockStep::Load(i) => i < probed@.len() && probed@[i as int] && forall|j: int|
                0 <= j < i ==> !probed@[j],
            LockStep::Probe(i) => i == probed@.len() && i < dirs && !probed@.contains(true),
            LockStep::NotFound => probed@.len() >= dirs && !probed@.contains(true),
        },
{
    let mut i: usize = 0;
    while i < probed.len()
        invariant
            i <= probed@.len(),
            forall|j: int| 0 <= j < i ==> !probed@[j],
        decreases probed@.len() - i,
    {
        if probed[i] {
            return LockStep::Load(i);
        }
        i = i + 1;
    }
    if i < dirs {
        LockStep::Probe(i)
    } else {
        LockStep::NotFound
    }
}

} // verus!
