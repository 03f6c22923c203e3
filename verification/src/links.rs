//! Where the base directory is, and how the `today` link is brought up to date.
use vstd::prelude::*;
use crate::path::{components, join, same_path, spec_join};

verus! {

pub open spec fn opt_view(o: Option<String>) -> Option<Seq<char>> {
    match o {
        Some(s) => Some(s@),
        None => None,
    }
}

/// What `shellexpand::tilde_with_context` gives on Unix: a leading `~` that
/// stands alone or before a `/` is replaced by the home directory, if there is one.
pub open spec fn spec_expand_tilde(input: Seq<char>, home: Option<Seq<char>>) -> Seq<char> {
    if input.len() > 0 && input[0] == '~' && (input.len() == 1 || input[1] == '/') && home is Some {
        home->0 + input.drop_first()
    } else {
        input
    }
}

/// `shellexpand::tilde_with_context(input, || home)`: expands a leading `~`
/// to `home` as `spec_expand_tilde` says.
#[verifier::external_body]
fn expand_tilde(input: &str, home: Option<String>) -> (r: String)
    ensures
        r@ == spec_expand_tilde(input@, opt_view(home)),
{
    shellexpand::tilde_with_context(input, move || home).into_owned()
}

pub open spec fn default_basedir() -> Seq<char> {
    seq!['~', '/', 'b', 'y', 'd', 'a', 't', 'e']
}

pub open spec fn basedir_link_rel() -> Seq<char> {
    seq!['b', 'y', 'd', 'a', 't', 'e', '/', 'b', 'a', 's', 'e', 'd', 'i', 'r']
}

/// Where the link that names the base directory lives: `bydate/basedir`
/// under the configuration directory.
pub fn basedir_link_path(config_dir: &str) -> (r: String)
    ensures
        r@ == spec_join(config_dir@, basedir_link_rel()),
{
    proof {
        reveal_strlit("bydate/basedir");
        assert("bydate/basedir"@ =~= basedir_link_rel());
    }
    join(config_dir, "bydate/basedir")
}

/// The parent directory that contains all year directories: what the link
/// `bydate/basedir` in the configuration directory points to, if it could be
/// read, or otherwise `~/bydate` with `~` expanded to `home`.
pub fn get_basedir(linked: Option<String>, home: Option<String>) -> (r: String)
    ensures
        r@ == match linked {
            Some(l) => l@,
            None => spec_expand_tilde(default_basedir(), opt_view(home)),
        },
{
    match linked {
        Some(l) => l,
        None => {
            proof {
                reveal_strlit("~/bydate");
                assert("~/bydate"@ =~= default_basedir());
            }
            expand_tilde("~/bydate", home)
        },
    }
}

/// What is to be done so that a link points at a target.
#[derive(Debug, Clone, Copy, PartialEq, Eq, Structural)]
pub enum SymlinkUpdate {
    /// The link already points at the target.
    Keep,
    /// The link points elsewhere: remove it and link anew.
    Replace,
    /// The link could not be read: link anew.
    Create,
}

/// Given what the link points at now (`None` if it could not be read),
/// what is to be done so that it points at `target`. Paths are compared as
/// `Path`'s `==` compares them, by their components.
pub fn symlink_update(current_target: &Option<String>, target: &str) -> (r: SymlinkUpdate)
    ensures
        r == match current_target {
            Some(c) => if components(c@) == components(target@) {
                SymlinkUpdate::Keep
            } else {
                SymlinkUpdate::Replace
            },
            None => SymlinkUpdate::Create,
        },
{
    match current_target {
        Some(c) => if same_path(c.as_str(), target) {
            SymlinkUpdate::Keep
        } else {
            SymlinkUpdate::Replace
        },
        None => SymlinkUpdate::Create,
    }
}

} // verus!
