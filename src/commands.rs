//! The decisions of one build and the commands it runs: whether a build is
//! needed, its directories, and the command lines of SRPM generation and of
//! the back-ends.

use vstd::prelude::*;
use crate::keys::BuildKey;
use crate::backend::BuilderBackend;
use crate::copr::{CoprBuildState, CoprBuildStatus, RemoteStep, remote_step};
use crate::text::{joined, join};

verus! {

/// A text as `{:?}` writes it: quoted, with escapes.
pub uninterp spec fn debug_text(s: Seq<char>) -> Seq<char>;

/// Relies on `<str as Debug>::fmt`: the quoted, escaped form, which depends
/// on the characters alone.
#[verifier::external_body]
fn debug_quote(s: &str) -> (r: String)
    ensures
        r@ == debug_text(s@),
{
    format!("{:?}", s)
}

/// The `{:?}` form of a text.
pub(crate) fn debug_quote_text(s: &str) -> (r: String)
    ensures
        r@ == debug_text(s@),
{
    debug_quote(s)
}

/// Parameters as extra command arguments: nothing when there are none, else
/// `prefix` and each parameter quoted, separated by spaces.
pub fn format_params_for_command(params: &Vec<String>, prefix: &str) -> (r: String)
    ensures
        r@ == if params@.len() == 0 {
            Seq::<char>::empty()
        } else {
            prefix@ + joined(params@.map_values(|p: String| debug_text(p@)), " "@)
        },
{
    if params.len() == 0 {
        return String::new();
    }
    let mut quoted: Vec<String> = Vec::new();
    let mut i: usize = 0;
    while i < params.len()
        invariant
            i <= params@.len(),
            quoted@.len() == i,
            forall|j: int| 0 <= j < i ==> (#[trigger] quoted@[j])@ == debug_text(params@[j]@),
        decreases params@.len() - i,
    {
        quoted.push(debug_quote(params[i].as_str()));
        i = i + 1;
    }
    proof {
        assert(quoted@.map_values(|q: String| q@) =~= params@.map_values(|p: String| debug_text(p@)));
    }
    let mut out = prefix.to_owned();
    out.append(join(&quoted, " ").as_str());
    out
}

pub open spec fn texts(v: Seq<String>) -> Seq<Seq<char>> {
    v.map_values(|s: String| s@)
}

fn push_all(v: &mut Vec<String>, items: &Vec<String>)
    ensures
        texts(final(v)@) == texts(old(v)@) + texts(items@),
{
    let mut i: usize = 0;
    while i < items.len()
        invariant
            i <= items@.len(),
            texts(v@) == texts(old(v)@) + texts(items@.subrange(0, i as int)),
        decreases items@.len() - i,
    {
        let ghost before = texts(v@);
        v.push(items[i].clone());
        proof {
            assert(texts(items@.subrange(0, i as int + 1)) =~= texts(items@.subrange(0, i as int)).push(items@[i as int]@));
            assert(texts(v@) =~= before.push(items@[i as int]@));
        }
        i = i + 1;
    }
    proof {
        assert(items@.subrange(0, items@.len() as int) =~= items@);
    }
}

/// The words of the mock command, before they are joined.
pub open spec fn mock_words(build_subdir: Seq<char>, srpm: Seq<char>, deps_dir: Option<Seq<char>>, params: Seq<Seq<char>>) -> Seq<Seq<char>> {
    seq!["mock"@, "--resultdir"@, build_subdir] + match deps_dir {
        Some(d) => seq!["--addrepo"@, d],
        None => Seq::empty(),
    } + seq![srpm] + params
}

/// `mock --resultdir <build_subdir> [--addrepo <deps_dir>] <srpm> <params...>`
pub fn mock_command(build_subdir: &str, srpm: &str, deps_dir: Option<&str>, params: &Vec<String>) -> (r: String)
    ensures
        r@ == joined(mock_words(build_subdir@, srpm@, match deps_dir {
            Some(d) => Some(d@),
            None => None,
        }, texts(params@)), " "@),
{
    let mut words: Vec<String> = Vec::new();
    words.push("mock".to_owned());
    words.push("--resultdir".to_owned());
    words.push(build_subdir.to_owned());
    let ghost w0 = texts(words@);
    proof {
        assert(w0 =~= seq!["mock"@, "--resultdir"@, build_subdir@]);
    }
    match deps_dir {
        Some(d) => {
            words.push("--addrepo".to_owned());
            words.push(d.to_owned());
            proof {
                assert(texts(words@) =~= w0 + seq!["--addrepo"@, d@]);
            }
        },
        None => {
            proof {
                assert(texts(words@) =~= w0 + Seq::<Seq<char>>::empty());
            }
        },
    }
    let ghost w1 = texts(words@);
    words.push(srpm.to_owned());
    proof {
        assert(texts(words@) =~= w1 + seq![srpm@]);
    }
    push_all(&mut words, params);
    join(&words, " ")
}

/// The words of the remote submission command.
pub open spec fn copr_words(project: Seq<char>, srpm: Seq<char>, excluded: Seq<Seq<char>>, network: bool) -> Seq<Seq<char>> {
    seq!["copr"@, "build"@, "--nowait"@, project, srpm] + excluded.map_values(
        |c: Seq<char>| seq!["--exclude-chroot"@, c],
    ).flatten() + if network {
        seq!["--enable-net"@, "on"@]
    } else {
        Seq::empty()
    }
}

/// `copr build --nowait <project> <srpm> [--exclude-chroot <c>...] [--enable-net on]`
pub fn copr_build_command(project: &str, srpm: &str, exclude_chroots: &Vec<String>, network: bool) -> (r: String)
    ensures
        r@ == joined(copr_words(project@, srpm@, texts(exclude_chroots@), network), " "@),
{
    let ghost ex = texts(exclude_chroots@);
    let ghost pieces = ex.map_values(|c: Seq<char>| seq!["--exclude-chroot"@, c]);
    let mut words: Vec<String> = Vec::new();
    words.push("copr".to_owned());
    words.push("build".to_owned());
    words.push("--nowait".to_owned());
    words.push(project.to_owned());
    words.push(srpm.to_owned());
    let ghost head = seq!["copr"@, "build"@, "--nowait"@, project@, srpm@];
    proof {
        assert(texts(words@) =~= head);
        assert(pieces.subrange(0, 0).flatten() =~= Seq::<Seq<char>>::empty());
        assert(head =~= head + pieces.subrange(0, 0).flatten());
    }
    let mut i: usize = 0;
    while i < exclude_chroots.len()
        invariant
            i <= exclude_chroots@.len(),
            ex == texts(exclude_chroots@),
            pieces == ex.map_values(|c: Seq<char>| seq!["--exclude-chroot"@, c]),
            texts(words@) == head + pieces.subrange(0, i as int).flatten(),
        decreases exclude_chroots@.len() - i,
    {
        let ghost before = texts(words@);
        words.push("--exclude-chroot".to_owned());
        words.push(exclude_chroots[i].clone());
        proof {
            let t = pieces.subrange(0, i as int + 1);
            assert(t.drop_last() =~= pieces.subrange(0, i as int));
            t.drop_last().lemma_flatten_push(t.last());
            assert(t =~= t.drop_last().push(t.last()));
            assert(texts(words@) =~= before + seq!["--exclude-chroot"@, ex[i as int]]);
        }
        i = i + 1;
    }
    proof {
        assert(pieces.subrange(0, exclude_chroots@.len() as int) =~= pieces);
    }
    let ghost w1 = texts(words@);
    if network {
        words.push("--enable-net".to_owned());
        words.push("on".to_owned());
        proof {
            assert(texts(words@) =~= w1 + seq!["--enable-net"@, "on"@]);
        }
    } else {
        proof {
            assert(texts(words@) =~= w1 + Seq::<Seq<char>>::empty());
        }
    }
    join(&words, " ")
}

/// `fedpkg --release <os> srpm --define "_srcrpmdir <out>"` followed by the
/// RHEL-layout defines, if any, and the parameters after ` -- `.
pub fn fedpkg_srpm_command(base_os: &str, srpm_dir: &str, rhel_dirs: Option<(&str, &str)>, params: &Vec<String>) -> (r: String)
    ensures
        r@ == "fedpkg --release "@ + base_os@ + " srpm --define \"_srcrpmdir "@ + srpm_dir@ + "\""@ + match rhel_dirs {
            Some((s, p)) => " --define \"_sourcedir "@ + s@ + "\" --define \"_specdir "@ + p@ + "\""@,
            None => Seq::empty(),
        } + if params@.len() == 0 {
            Seq::<char>::empty()
        } else {
            " -- "@ + joined(params@.map_values(|p: String| debug_text(p@)), " "@)
        },
{
    let mut out = "fedpkg --release ".to_owned();
    out.append(base_os);
    out.append(" srpm --define \"_srcrpmdir ");
    out.append(srpm_dir);
    out.append("\"");
    let ghost o1 = out@;
    match rhel_dirs {
        Some((s, p)) => {
            out.append(" --define \"_sourcedir ");
            out.append(s);
            out.append("\" --define \"_specdir ");
            out.append(p);
            out.append("\"");
        },
        None => {
            proof {
                assert(out@ =~= o1 + Seq::<char>::empty());
            }
        },
    }
    let tail = format_params_for_command(params, " -- ");
    out.append(tail.as_str());
    out
}

/// `rpmbuild -bs --define "_topdir <dir>" --define "_srcrpmdir <out>" "<spec>"`
pub fn rpmbuild_srpm_command(topdir: &str, srpm_dir: &str, spec_file: &str) -> (r: String)
    ensures
        r@ == "rpmbuild -bs --define \"_topdir "@ + topdir@ + "\" --define \"_srcrpmdir "@ + srpm_dir@ + "\" \""@
            + spec_file@ + "\""@,
{
    let mut out = "rpmbuild -bs --define \"_topdir ".to_owned();
    out.append(topdir);
    out.append("\" --define \"_srcrpmdir ");
    out.append(srpm_dir);
    out.append("\" \"");
    out.append(spec_file);
    out.append("\"");
    out
}

/// The directory a build is assembled in before it is published.
pub fn tmp_dir_name(build_key: &BuildKey) -> (r: String)
    ensures
        r@ == build_key.dir_name() + ".tmp"@,
{
    let mut name = build_key.build_dir_name();
    name.append(".tmp");
    name
}

/// How a build task starts.
#[derive(Debug, PartialEq, Eq, Structural)]
pub enum BuildStart {
    /// The build exists already: nothing to do.
    AlreadyBuilt,
    /// A remote build was submitted earlier: wait for it.
    WaitForRemote(u64),
    /// Assemble and run the build.
    Build,
}

/// How a build task starts: a remote back-end goes by the recorded state of
/// the build, a local one by whether the build's directory exists.
pub fn build_start(backend: BuilderBackend, local_build_exists: bool, remote_state: Option<&CoprBuildState>) -> (r: BuildStart)
    ensures
        backend == BuilderBackend::Copr ==> r == match remote_state {
            None => BuildStart::Build,
            Some(s) => match s.status {
                CoprBuildStatus::Completed => BuildStart::AlreadyBuilt,
                CoprBuildStatus::Failed => BuildStart::Build,
                _ => BuildStart::WaitForRemote(s.build_id),
            },
        },
        backend != BuilderBackend::Copr ==> r == if local_build_exists {
            BuildStart::AlreadyBuilt
        } else {
            BuildStart::Build
        },
{
    if backend.is_remote() {
        match remote_step(remote_state) {
            RemoteStep::AlreadyCompleted => BuildStart::AlreadyBuilt,
            RemoteStep::WaitFor(id) => BuildStart::WaitForRemote(id),
            RemoteStep::Submit => BuildStart::Build,
        }
    } else if local_build_exists {
        BuildStart::AlreadyBuilt
    } else {
        BuildStart::Build
    }
}

/// A local build with dependencies gets a repository of their outputs.
pub fn needs_dependency_repo(backend: BuilderBackend, dependency_count: usize) -> (r: bool)
    ensures
        r == (dependency_count > 0 && backend != BuilderBackend::Copr),
{
    dependency_count > 0 && !backend.is_remote()
}

/// The container back-end indexes the repository inside its image; the
/// others index it in place.
pub fn indexes_dependency_repo(backend: BuilderBackend) -> (r: bool)
    ensures
        r == (backend != BuilderBackend::Docker),
{
    !matches!(backend, BuilderBackend::Docker)
}

} // verus!
