//! Laws on how Cargo is asked.
use crate::command::{
    is_host_line, metadata_command, platform, CommandArgView, MetadataRequest,
};
use crate::laws::text::law_trimming_takes_white_space;
use crate::text::{is_white_space, trim_white};
use vstd::prelude::*;

verus! {

/// Cargo is asked for locked metadata of the first format. The manifest is passed on exactly when
/// it is given, the platform always, the default features are switched off exactly when that is
/// asked for, and the features are passed on, without the white space around them, exactly when
/// there are any.
pub proof fn law_arguments_pass_on_what_is_asked_for(r: MetadataRequest)
    ensures
        ({
            let c = metadata_command(r);
            let m: int = if r.has_manifest_path {
                2
            } else {
                0
            };
            let d: int = if r.no_default_features {
                1
            } else {
                0
            };
            let f: int = if trim_white(r.features@).len() > 0 {
                2
            } else {
                0
            };
            &&& c.len() == 6 + m + d + f
            &&& c[0] == CommandArgView::Text("metadata"@)
            &&& c[1] == CommandArgView::Text("--format-version"@)
            &&& c[2] == CommandArgView::Text("1"@)
            &&& c[3] == CommandArgView::Text("--locked"@)
            &&& r.has_manifest_path ==> c[4] == CommandArgView::Text("--manifest-path"@) && c[5]
                == CommandArgView::ManifestPath
            &&& c[4 + m] == CommandArgView::Text("--filter-platform"@)
            &&& c[5 + m] == CommandArgView::Text(platform(r))
            &&& r.no_default_features ==> c[6 + m] == CommandArgView::Text(
                "--no-default-features"@,
            )
            &&& trim_white(r.features@).len() > 0 ==> c[6 + m + d] == CommandArgView::Text(
                "--features"@,
            ) && c[7 + m + d] == CommandArgView::Text(trim_white(r.features@))
        }),
{
}

/// The target is passed on whole, without the white space around it.
pub proof fn law_platform_is_the_target(
    r: MetadataRequest,
    a: Seq<char>,
    target: Seq<char>,
    b: Seq<char>,
)
    requires
        r.target@ == a + target + b,
        forall|i: int| 0 <= i < a.len() ==> is_white_space(#[trigger] a[i]),
        forall|i: int| 0 <= i < b.len() ==> is_white_space(#[trigger] b[i]),
        target.len() > 0,
        !is_white_space(target[0]),
        !is_white_space(target.last()),
    ensures
        platform(r) == target,
{
    law_trimming_takes_white_space(a, target, b);
}

/// Where the target is blank, the host is passed on whole, without the white space around it.
pub proof fn law_platform_is_the_host_without_target(
    r: MetadataRequest,
    a: Seq<char>,
    host: Seq<char>,
    b: Seq<char>,
)
    requires
        forall|i: int| 0 <= i < r.target@.len() ==> is_white_space(#[trigger] r.target@[i]),
        r.host@ == a + host + b,
        forall|i: int| 0 <= i < a.len() ==> is_white_space(#[trigger] a[i]),
        forall|i: int| 0 <= i < b.len() ==> is_white_space(#[trigger] b[i]),
        host.len() > 0 ==> !is_white_space(host[0]) && !is_white_space(host.last()),
    ensures
        platform(r) == host,
{
    let none = Seq::<char>::empty();
    law_trimming_takes_white_space(r.target@, none, none);
    assert(r.target@ + none + none =~= r.target@);
    law_trimming_takes_white_space(a, host, b);
}

/// The features are passed on whole, without the white space around them.
pub proof fn law_features_are_passed_on_whole(
    r: MetadataRequest,
    a: Seq<char>,
    features: Seq<char>,
    b: Seq<char>,
)
    requires
        r.features@ == a + features + b,
        forall|i: int| 0 <= i < a.len() ==> is_white_space(#[trigger] a[i]),
        forall|i: int| 0 <= i < b.len() ==> is_white_space(#[trigger] b[i]),
        features.len() > 0,
        !is_white_space(features[0]),
        !is_white_space(features.last()),
    ensures
        metadata_command(r)[metadata_command(r).len() - 2] == CommandArgView::Text("--features"@),
        metadata_command(r)[metadata_command(r).len() - 1] == CommandArgView::Text(features),
{
    law_trimming_takes_white_space(a, features, b);
    law_arguments_pass_on_what_is_asked_for(r);
}

/// The host is told on a line that begins with the letters `host`, a colon and a space.
pub proof fn law_host_is_told_behind_its_word(line: Seq<char>)
    ensures
        is_host_line(line) <==> line.len() >= 6 && line[0] == 'h' && line[1] == 'o' && line[2]
            == 's' && line[3] == 't' && line[4] == ':' && line[5] == ' ',
        "host: "@.len() == 6,
{
    reveal_strlit("host: ");
    if line.len() >= 6 {
        let t = line.subrange(0, 6);
        assert(forall|i: int| 0 <= i < 6 ==> t[i] == line[i]);
        if line[0] == 'h' && line[1] == 'o' && line[2] == 's' && line[3] == 't' && line[4] == ':'
            && line[5] == ' ' {
            assert(t =~= "host: "@);
        }
    }
}

} // verus!
