//! Where a source's packaging lives, and how its content identity is read
//! from git.

use vstd::prelude::*;
use crate::keys::SourceKey;
use crate::spec_tree::{Source, SourceType};
use crate::text::{starts_with, suffix_from};

verus! {

/// `s` with every occurrence of `pat` replaced by `to`, scanning left to
/// right without overlaps.
pub open spec fn replaced(s: Seq<char>, pat: Seq<char>, to: Seq<char>) -> Seq<char>
    decreases s.len(),
{
    if pat.len() == 0 || s.len() == 0 {
        s
    } else if pat.is_prefix_of(s) {
        to + replaced(s.subrange(pat.len() as int, s.len() as int), pat, to)
    } else {
        seq![s[0]] + replaced(s.drop_first(), pat, to)
    }
}

pub open spec fn name_placeholder() -> Seq<char> {
    "${NAME}"@
}

/// `text` with each occurrence of `pat` replaced by `to`.
pub fn replace_text(text: &str, pat: &str, to: &str) -> (r: String)
    requires
        pat@.len() > 0,
    ensures
        r@ == replaced(text@, pat@, to@),
{
    let n = text.unicode_len();
    let m = pat.unicode_len();
    let mut out = String::new();
    let mut i: usize = 0;
    proof {
        assert(text@.subrange(0, n as int) =~= text@);
        assert(out@ + replaced(text@.subrange(0, n as int), pat@, to@) =~= replaced(text@, pat@, to@));
    }
    while i < n
        invariant
            n == text@.len(),
            m == pat@.len(),
            m > 0,
            i <= n,
            out@ + replaced(text@.subrange(i as int, n as int), pat@, to@) == replaced(text@, pat@, to@),
        decreases n - i,
    {
        let rest = text.substring_char(i, n);
        let ghost r0 = text@.subrange(i as int, n as int);
        if starts_with(rest, pat) {
            proof {
                assert(r0.subrange(m as int, r0.len() as int) =~= text@.subrange(i as int + m, n as int));
                assert(out@ + to@ + replaced(text@.subrange(i as int + m, n as int), pat@, to@) =~= out@ + replaced(r0, pat@, to@));
            }
            out.append(to);
            i = i + m;
        } else {
            let c = text.substring_char(i, i + 1);
            proof {
                assert(r0.drop_first() =~= text@.subrange(i as int + 1, n as int));
                assert(c@ =~= seq![r0[0]]);
                assert(out@ + c@ + replaced(text@.subrange(i as int + 1, n as int), pat@, to@) =~= out@ + replaced(r0, pat@, to@));
            }
            out.append(c);
            i = i + 1;
        }
    }
    proof {
        assert(text@.subrange(n as int, n as int) =~= Seq::<char>::empty());
        assert(out@ =~= out@ + replaced(text@.subrange(n as int, n as int), pat@, to@));
    }
    out
}

/// `text` with each `${NAME}` replaced by the source's key.
pub fn substitute_name(text: &str, key: &SourceKey) -> (r: String)
    ensures
        r@ == replaced(text@, name_placeholder(), key@),
{
    let pat = "${NAME}";
    proof {
        reveal_strlit("${NAME}");
    }
    let n = text.unicode_len();
    let m = pat.unicode_len();
    let mut out = String::new();
    let mut i: usize = 0;
    proof {
        assert(text@.subrange(0, n as int) =~= text@);
        assert(out@ + replaced(text@.subrange(0, n as int), pat@, key@) =~= replaced(text@, pat@, key@));
    }
    while i < n
        invariant
            n == text@.len(),
            m == pat@.len(),
            m == 7,
            pat@ == name_placeholder(),
            i <= n,
            out@ + replaced(text@.subrange(i as int, n as int), pat@, key@) == replaced(text@, pat@, key@),
        decreases n - i,
    {
        let rest = text.substring_char(i, n);
        let ghost r0 = text@.subrange(i as int, n as int);
        if starts_with(rest, pat) {
            proof {
                assert(r0.subrange(7, r0.len() as int) =~= text@.subrange(i as int + 7, n as int));
                assert(out@ + key@ + replaced(text@.subrange(i as int + 7, n as int), pat@, key@) =~= out@ + replaced(r0, pat@, key@));
            }
            out.append(key.as_str());
            i = i + m;
        } else {
            let c = text.substring_char(i, i + 1);
            proof {
                assert(r0.drop_first() =~= text@.subrange(i as int + 1, n as int));
                assert(c@ =~= seq![r0[0]]);
                assert(out@ + c@ + replaced(text@.subrange(i as int + 1, n as int), pat@, key@) =~= out@ + replaced(r0, pat@, key@));
            }
            out.append(c);
            i = i + 1;
        }
    }
    proof {
        assert(text@.subrange(n as int, n as int) =~= Seq::<char>::empty());
        assert(out@ =~= out@ + replaced(text@.subrange(n as int, n as int), pat@, key@));
    }
    out
}

/// Where a git source's repository is found.
#[derive(Debug, PartialEq, Eq)]
pub enum RepoLocation {
    /// A local path, to be made absolute.
    Path(String),
    /// A `file://` URL: the path after the scheme.
    FileUrl(String),
    /// A remote URL, cloned into `sources/<key>` of the workspace.
    Remote(String),
}

#[derive(Debug, PartialEq, Eq)]
pub enum SourceError {
    /// A git source with neither `url` nor `path`.
    InvalidGitSource,
    /// SRPM sources are reserved and not built.
    SrpmNotImplemented,
}

pub open spec fn file_scheme() -> Seq<char> {
    "file://"@
}

pub open spec fn opt_view(o: Option<String>) -> Option<Seq<char>> {
    match o {
        Some(s) => Some(s@),
        None => None,
    }
}

/// Where the repository of a source is: its `path`, else its `url`, each
/// with `${NAME}` substituted.
pub open spec fn location_of(source: Source, key: Seq<char>) -> Result<(int, Seq<char>), SourceError> {
    match source.typ {
        SourceType::Git { url, path, .. } => match path {
            Some(p) => Ok((0, replaced(p@, name_placeholder(), key))),
            None => match url {
                Some(u) => {
                    let u2 = replaced(u@, name_placeholder(), key);
                    if file_scheme().is_prefix_of(u2) {
                        Ok((1, u2.subrange(7, u2.len() as int)))
                    } else {
                        Ok((2, u2))
                    }
                },
                None => Err(SourceError::InvalidGitSource),
            },
        },
        SourceType::Srpm { .. } => Err(SourceError::SrpmNotImplemented),
    }
}

impl RepoLocation {
    pub open spec fn view_pair(&self) -> (int, Seq<char>) {
        match self {
            RepoLocation::Path(p) => (0, p@),
            RepoLocation::FileUrl(p) => (1, p@),
            RepoLocation::Remote(u) => (2, u@),
        }
    }
}

/// Where the repository of `source` is found.
pub fn repo_location(source: &Source, key: &SourceKey) -> (r: Result<RepoLocation, SourceError>)
    ensures
        match r {
            Ok(loc) => location_of(*source, key@) == Ok::<(int, Seq<char>), SourceError>(loc.view_pair()),
            Err(e) => location_of(*source, key@) == Err::<(int, Seq<char>), SourceError>(e),
        },
{
    match &source.typ {
        SourceType::Git { url, path, .. } => match path {
            Some(p) => Ok(RepoLocation::Path(substitute_name(p.as_str(), key))),
            None => match url {
                Some(u) => {
                    let u2 = substitute_name(u.as_str(), key);
                    proof {
                        reveal_strlit("file://");
                    }
                    if starts_with(u2.as_str(), "file://") {
                        Ok(RepoLocation::FileUrl(suffix_from(u2.as_str(), 7)))
                    } else {
                        Ok(RepoLocation::Remote(u2))
                    }
                },
                None => Err(SourceError::InvalidGitSource),
            },
        },
        SourceType::Srpm { .. } => Err(SourceError::SrpmNotImplemented),
    }
}

/// The revision a source pins, if any.
pub open spec fn pinned_revision(source: Source) -> Option<Seq<char>> {
    match source.typ {
        SourceType::Git { revision, .. } => opt_view(revision),
        _ => None,
    }
}

/// Whether the source's content identity needs a clean worktree: only a
/// source that pins no revision reads its worktree.
pub fn requires_clean_worktree(source: &Source) -> (r: bool)
    ensures
        r == (pinned_revision(*source) is None),
{
    match &source.typ {
        SourceType::Git { revision, .. } => revision.is_none(),
        _ => true,
    }
}

/// The source's subpath with `${NAME}` substituted.
pub fn source_subpath(source: &Source, key: &SourceKey) -> (r: Option<String>)
    ensures
        opt_view(r) == match source.typ {
            SourceType::Git { subpath, .. } => match subpath {
                Some(s) => Some(replaced(s@, name_placeholder(), key@)),
                None => None,
            },
            _ => None,
        },
{
    match &source.typ {
        SourceType::Git { subpath, .. } => match subpath {
            Some(s) => Some(substitute_name(s.as_str(), key)),
            None => None,
        },
        _ => None,
    }
}

/// The git object whose hash identifies the content: the tree of
/// `revision`, or its entry at `subpath`.
pub open spec fn tree_object(revision: Seq<char>, subpath: Option<Seq<char>>) -> Seq<char> {
    match subpath {
        Some(s) => revision + seq![':'] + s,
        None => revision + "^{tree}"@,
    }
}

/// `git rev-parse <object>`: the command that prints a source's content hash
/// at `revision` (`HEAD` for the worktree's commit).
pub fn tree_hash_command(revision: &str, subpath: Option<&str>) -> (r: String)
    ensures
        r@ == "git rev-parse "@ + tree_object(revision@, match subpath {
            Some(s) => Some(s@),
            None => None,
        }),
{
    let mut out = "git rev-parse ".to_owned();
    out.append(revision);
    match subpath {
        Some(s) => {
            proof {
                reveal_strlit(":");
            }
            out.append(":");
            out.append(s);
        },
        None => {
            out.append("^{tree}");
        },
    }
    out
}

} // verus!

verus! {

/// The git invocations that bring a repository up to date: fetch and reset
/// an existing clone, else clone it.
pub fn repo_sync_commands(present: bool, url: &str, dest: &str) -> (r: Vec<Vec<String>>)
    ensures
        present ==> r@.len() == 2,
        !present ==> r@.len() == 1,
        present ==> r@[0]@.map_values(|a: String| a@) == seq!["fetch"@, "origin"@] && r@[1]@.map_values(
            |a: String| a@,
        ) == seq!["reset"@, "--hard"@, "origin/HEAD"@],
        !present ==> r@[0]@.map_values(|a: String| a@) == seq!["clone"@, url@, dest@],
{
    let mut out: Vec<Vec<String>> = Vec::new();
    if present {
        let mut fetch: Vec<String> = Vec::new();
        fetch.push("fetch".to_owned());
        fetch.push("origin".to_owned());
        let mut reset: Vec<String> = Vec::new();
        reset.push("reset".to_owned());
        reset.push("--hard".to_owned());
        reset.push("origin/HEAD".to_owned());
        proof {
            assert(fetch@.map_values(|a: String| a@) =~= seq!["fetch"@, "origin"@]);
            assert(reset@.map_values(|a: String| a@) =~= seq!["reset"@, "--hard"@, "origin/HEAD"@]);
        }
        out.push(fetch);
        out.push(reset);
    } else {
        let mut clone: Vec<String> = Vec::new();
        clone.push("clone".to_owned());
        clone.push(url.to_owned());
        clone.push(dest.to_owned());
        proof {
            assert(clone@.map_values(|a: String| a@) =~= seq!["clone"@, url@, dest@]);
        }
        out.push(clone);
    }
    out
}

/// `git archive --format=tar <revision> [<subpath>]`, which writes the tree
/// of a revision, or of its subpath, as a tar stream.
pub fn export_archive_command(revision: &str, subpath: Option<&str>) -> (r: String)
    ensures
        r@ == "git archive --format=tar "@ + revision@ + match subpath {
            Some(s) => " "@ + s@,
            None => Seq::empty(),
        },
{
    let mut out = "git archive --format=tar ".to_owned();
    out.append(revision);
    match subpath {
        Some(s) => {
            out.append(" ");
            out.append(s);
        },
        None => {
            proof {
                assert(out@ =~= out@ + Seq::<char>::empty());
            }
        },
    }
    out
}

/// The directory a pinned revision is exported to: `<key>-<full revision>`.
pub fn exported_dir_name(key: &SourceKey, full_revision: &str) -> (r: String)
    ensures
        r@ == crate::keys::dir_name_of(key@, full_revision@),
{
    let mut out = key.0.clone();
    proof {
        reveal_strlit("-");
    }
    out.append("-");
    out.append(full_revision);
    out
}

/// What a build records of the source it was made from.
#[derive(Debug)]
pub struct BuildInfo {
    pub source: Source,
    pub git_revision: Option<String>,
}

/// The commit that a build records: for a source that pins a revision, that
/// revision resolved to its full commit hash; for one that pins none, the
/// commit of its worktree. Either is `None` where it could not be read.
pub fn recorded_revision(source: &Source, resolved_pin: Option<&str>, worktree_head: Option<&str>) -> (r: Option<String>)
    ensures
        opt_view(r) == if pinned_revision(*source) is Some {
            match resolved_pin {
                Some(s) => Some(s@),
                None => None,
            }
        } else {
            match worktree_head {
                Some(s) => Some(s@),
                None => None,
            }
        },
{
    let pinned = match &source.typ {
        SourceType::Git { revision, .. } => revision.is_some(),
        _ => false,
    };
    let chosen = if pinned {
        resolved_pin
    } else {
        worktree_head
    };
    match chosen {
        Some(s) => Some(s.to_owned()),
        None => None,
    }
}

} // verus!
