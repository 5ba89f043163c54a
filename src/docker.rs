//! The container back-end: the base image for a target OS, the image that
//! adds a build's missing dependencies, and the commands run in them.

use vstd::prelude::*;
use crate::order::{key_lt, key_less, lemma_key_lt_total, lemma_key_lt_transitive};
use crate::identity::{sha256_hex, sha256_hex_of};
use crate::commands::{debug_text, format_params_for_command};
use crate::text::{joined, join, starts_with, split_lines, lines_of};
use crate::source::replaced;

verus! {

#[derive(Debug, PartialEq, Eq)]
pub enum DockerError {
    /// No base image is known for this target OS.
    UnsupportedOs(String),
}

pub open spec fn epel10_dockerfile() -> Seq<char> {
    "FROM rockylinux:10\n\nRUN dnf install -y 'dnf-command(config-manager)'\nRUN dnf config-manager --set-enabled crb appstream extras\n\n# Install EPEL repository\nRUN dnf install -y epel-release\n\n# Install build dependencies\nRUN dnf install -y bash bzip2 cpio diffutils findutils gawk glibc-minimal-langpack grep gzip info patch redhat-rpm-config rocky-release rpm-build sed tar unzip util-linux which xz\n"@
}

/// The Dockerfile of the base build image for a target OS.
pub fn get_builder_dockerfile_for_os(os: &str) -> (r: Result<String, DockerError>)
    ensures
        match r {
            Ok(d) => os@ == "epel10"@ && d@ == epel10_dockerfile(),
            Err(DockerError::UnsupportedOs(o)) => os@ != "epel10"@ && o@ == os@,
        },
{
    if crate::text::same_text(os, "epel10") {
        Ok("FROM rockylinux:10\n\nRUN dnf install -y 'dnf-command(config-manager)'\nRUN dnf config-manager --set-enabled crb appstream extras\n\n# Install EPEL repository\nRUN dnf install -y epel-release\n\n# Install build dependencies\nRUN dnf install -y bash bzip2 cpio diffutils findutils gawk glibc-minimal-langpack grep gzip info patch redhat-rpm-config rocky-release rpm-build sed tar unzip util-linux which xz\n".to_owned())
    } else {
        Err(DockerError::UnsupportedOs(os.to_owned()))
    }
}

pub open spec fn image_prefix() -> Seq<char> {
    "spectree.ops/"@
}

/// The image name for a target: under `spectree.ops/` unless it is already.
pub fn image_name(target: &str) -> (r: String)
    ensures
        r@ == if image_prefix().is_prefix_of(target@) {
            target@
        } else {
            image_prefix() + target@
        },
{
    let prefix = "spectree.ops/";
    if starts_with(target, prefix) {
        target.to_owned()
    } else {
        let mut out = prefix.to_owned();
        out.append(target);
        out
    }
}

/// In order: no element sorts before an earlier one.
pub open spec fn sorted_texts(s: Seq<Seq<char>>) -> bool {
    forall|i: int, j: int| 0 <= i < j < s.len() ==> !key_lt(#[trigger] s[j], #[trigger] s[i])
}

pub open spec fn views(v: Seq<String>) -> Seq<Seq<char>> {
    v.map_values(|s: String| s@)
}

/// The texts in order, duplicates kept.
pub fn sort_texts(items: &Vec<String>) -> (r: Vec<String>)
    ensures
        sorted_texts(views(r@)),
        views(r@).to_multiset() == views(items@).to_multiset(),
{
    let mut out: Vec<String> = Vec::new();
    let mut i: usize = 0;
    proof {
        assert(views(out@) =~= Seq::<Seq<char>>::empty());
        assert(views(items@).subrange(0, 0) =~= Seq::<Seq<char>>::empty());
    }
    while i < items.len()
        invariant
            i <= items@.len(),
            sorted_texts(views(out@)),
            views(out@).to_multiset() == views(items@).subrange(0, i as int).to_multiset(),
        decreases items@.len() - i,
    {
        let x = items[i].as_str();
        let ghost s = views(out@);
        let mut p: usize = 0;
        while p < out.len() && !key_less(x, out[p].as_str())
            invariant
                s == views(out@),
                p <= out@.len(),
                forall|q: int| 0 <= q < p ==> !key_lt(x@, #[trigger] s[q]),
            decreases out@.len() - p,
        {
            p = p + 1;
        }
        out.insert(p, items[i].clone());
        proof {
            let t = views(out@);
            assert(t =~= s.insert(p as int, x@));
            assert forall|a: int, b: int| 0 <= a < b < t.len() implies !key_lt(#[trigger] t[b], #[trigger] t[a]) by {
                if b == p {
                    assert(t[a] == s[a]);
                    if key_lt(x@, s[a]) {
                        assert(!key_lt(x@, s[a]));
                    }
                } else if a == p {
                    assert(t[b] == s[b - 1]);
                    assert(key_lt(x@, s[p as int]));
                    if b - 1 > p {
                        assert(!key_lt(s[b - 1], s[p as int]));
                        if s[b - 1] != s[p as int] {
                            lemma_key_lt_total(s[b - 1], s[p as int]);
                            lemma_key_lt_transitive(x@, s[p as int], s[b - 1]);
                        }
                    }
                    crate::order::lemma_key_lt_asymmetric(x@, s[b - 1]);
                } else if b < p {
                    assert(t[a] == s[a] && t[b] == s[b]);
                } else if a > p {
                    assert(t[a] == s[a - 1] && t[b] == s[b - 1]);
                } else {
                    assert(t[a] == s[a] && t[b] == s[b - 1]);
                }
            }
            let prev = views(items@).subrange(0, i as int);
            let src = views(items@).subrange(0, i as int + 1);
            assert(src =~= prev.insert(i as int, x@));
            vstd::seq_lib::to_multiset_insert(s, p as int, x@);
            vstd::seq_lib::to_multiset_insert(prev, i as int, x@);
        }
        i = i + 1;
    }
    proof {
        assert(views(items@).subrange(0, items@.len() as int) =~= views(items@));
    }
    out
}

/// The tag of the image that adds `deps`: the base image, `:`, and the
/// digest of the sorted, quoted dependency names joined by spaces.
pub open spec fn deps_image_of(image: Seq<char>, sorted_deps: Seq<Seq<char>>) -> Seq<char> {
    image + seq![':'] + sha256_hex(joined(sorted_deps.map_values(|d: Seq<char>| debug_text(d)), " "@))
}

/// The dependency names sorted, quoted and joined, and the image tag made
/// from them.
pub fn deps_image(image: &str, deps: &Vec<String>) -> (r: (String, String))
    ensures
        exists|sorted: Seq<Seq<char>>|
            sorted_texts(sorted) && sorted.to_multiset() == views(deps@).to_multiset() && r.0@ == joined(
                sorted.map_values(|d: Seq<char>| debug_text(d)),
                " "@,
            ) && r.1@ == deps_image_of(image@, sorted),
{
    let sorted = sort_texts(deps);
    let mut quoted: Vec<String> = Vec::new();
    let mut i: usize = 0;
    while i < sorted.len()
        invariant
            i <= sorted@.len(),
            quoted@.len() == i,
            forall|j: int| 0 <= j < i ==> (#[trigger] quoted@[j])@ == debug_text(sorted@[j]@),
        decreases sorted@.len() - i,
    {
        quoted.push(crate::commands::debug_quote_text(sorted[i].as_str()));
        i = i + 1;
    }
    proof {
        assert(quoted@.map_values(|q: String| q@) =~= views(sorted@).map_values(|d: Seq<char>| debug_text(d)));
    }
    let text = join(&quoted, " ");
    let digest = sha256_hex_of(text.as_str());
    let mut tag = image.to_owned();
    proof {
        reveal_strlit(":");
    }
    tag.append(":");
    tag.append(digest.as_str());
    (text, tag)
}

/// The Dockerfile of the image that adds the missing dependencies to
/// `image`: from the build's dependency repository when there is one, else
/// from the configured repositories.
pub fn deps_dockerfile(image: &str, deps_text: &str, dep_repo: bool) -> (r: String)
    ensures
        r@ == if dep_repo {
            "FROM "@ + image@ + "\nCOPY --from=deps / /deps\nRUN createrepo_c /deps\nRUN dnf install --repofrompath=deps,file:///deps --setopt=deps.gpgcheck=0 --enablerepo=deps -y "@
                + deps_text@ + "\nRUN rm -rf /deps\n"@
        } else {
            "FROM "@ + image@ + "\nRUN dnf install -y "@ + deps_text@ + "\n"@
        },
{
    let mut out = "FROM ".to_owned();
    out.append(image);
    if dep_repo {
        out.append("\nCOPY --from=deps / /deps\nRUN createrepo_c /deps\nRUN dnf install --repofrompath=deps,file:///deps --setopt=deps.gpgcheck=0 --enablerepo=deps -y ");
        out.append(deps_text);
        out.append("\nRUN rm -rf /deps\n");
    } else {
        out.append("\nRUN dnf install -y ");
        out.append(deps_text);
        out.append("\n");
    }
    out
}

/// The first index from `i` on where `p` starts in `s`, if any.
pub open spec fn find_from(s: Seq<char>, p: Seq<char>, i: int) -> Option<int>
    decreases s.len() - i,
{
    if i < 0 || i + p.len() > s.len() {
        None
    } else if p.is_prefix_of(s.subrange(i, s.len() as int)) {
        Some(i)
    } else {
        find_from(s, p, i + 1)
    }
}

pub open spec fn unresolved_marker() -> Seq<char> {
    "Error: Unable to find a match: "@
}

/// The package named on a line, if it reports a package that no repository
/// provides.
pub open spec fn unresolved_on_line(l: Seq<char>) -> Option<Seq<char>> {
    match find_from(l, unresolved_marker(), 0) {
        Some(i) => Some(replaced(l.subrange(i + unresolved_marker().len(), l.len() as int), " \\t"@, " "@)),
        None => None,
    }
}

/// The first position where `p` starts in `s`.
fn find_text(s: &str, p: &str) -> (r: Option<usize>)
    ensures
        match r {
            Some(i) => find_from(s@, p@, 0) == Some(i as int),
            None => find_from(s@, p@, 0) is None,
        },
{
    let n = s.unicode_len();
    let m = p.unicode_len();
    let mut i: usize = 0;
    while i <= n && m <= n - i
        invariant
            i <= n + 1,
            n == s@.len(),
            m == p@.len(),
            find_from(s@, p@, 0) == find_from(s@, p@, i as int),
        decreases n - i,
    {
        if starts_with(s.substring_char(i, n), p) {
            return Some(i);
        }
        i = i + 1;
    }
    None
}

/// The package that the image build could not install, from its error
/// output: on the first line that reports one.
pub fn unresolvable_package(stderr: &str) -> (r: Option<String>)
    ensures
        match r {
            Some(pkg) => exists|i: int|
                0 <= i < lines_of(stderr@).len() && unresolved_on_line(lines_of(stderr@)[i]) == Some(pkg@) && forall|j: int|
                    0 <= j < i ==> unresolved_on_line(#[trigger] lines_of(stderr@)[j]) is None,
            None => forall|j: int| 0 <= j < lines_of(stderr@).len() ==> unresolved_on_line(#[trigger] lines_of(stderr@)[j]) is None,
        },
{
    let lines = split_lines(stderr);
    let ghost ls = lines_of(stderr@);
    let marker = "Error: Unable to find a match: ";
    let mut i: usize = 0;
    while i < lines.len()
        invariant
            ls == lines_of(stderr@),
            ls == lines@.map_values(|l: String| l@),
            marker@ == unresolved_marker(),
            i <= lines@.len(),
            forall|j: int| 0 <= j < i ==> unresolved_on_line(#[trigger] ls[j]) is None,
        decreases lines@.len() - i,
    {
        let line = lines[i].as_str();
        proof {
            assert(ls[i as int] == line@);
        }
        match find_text(line, marker) {
            Some(start) => {
                proof {
                    reveal_strlit("Error: Unable to find a match: ");
                    assert(start + marker@.len() <= line@.len()) by {
                        lemma_find_from_bound(line@, marker@, 0);
                    }
                }
                let n = line.unicode_len();
                let rest = line.substring_char(start + marker.unicode_len(), n);
                proof {
                    reveal_strlit(" \\t");
                }
                let pkg = crate::source::replace_text(rest, " \\t", " ");
                proof {
                    assert(unresolved_on_line(ls[i as int]) == Some(pkg@));
                }
                return Some(pkg);
            },
            None => {},
        }
        i = i + 1;
    }
    None
}

proof fn lemma_find_from_bound(s: Seq<char>, p: Seq<char>, i: int)
    ensures
        find_from(s, p, i) matches Some(k) ==> k >= i && k + p.len() <= s.len(),
    decreases s.len() - i,
{
    if !(i < 0 || i + p.len() > s.len()) && !p.is_prefix_of(s.subrange(i, s.len() as int)) {
        lemma_find_from_bound(s, p, i + 1);
    }
}

/// The command that builds the packages in the container, or with
/// `prepare_only` only unpacks and patches the sources.
pub fn container_build_command(prepare_only: bool, params: &Vec<String>) -> (r: String)
    ensures
        r@ == (if prepare_only {
            "rpmbuild -bp"@
        } else {
            "rpmbuild -ba"@
        }) + " -D \"_topdir /workspace/build\""@ + (if params@.len() == 0 {
            Seq::<char>::empty()
        } else {
            " "@ + joined(params@.map_values(|p: String| debug_text(p@)), " "@)
        }) + " /workspace/build/SPECS/*.spec"@,
{
    let mut out = if prepare_only {
        "rpmbuild -bp".to_owned()
    } else {
        "rpmbuild -ba".to_owned()
    };
    out.append(" -D \"_topdir /workspace/build\"");
    let p = format_params_for_command(params, " ");
    out.append(p.as_str());
    out.append(" /workspace/build/SPECS/*.spec");
    out
}

pub open spec fn probe_head() -> Seq<char> {
    "rpm -D \"_topdir /workspace/build\" -i /workspace/srpm/*.src.rpm\nparam=\"-br\"\nif ! rpmbuild -br 2>/dev/null ; then\n    param=\"-bp\"\nfi\n(rpmbuild ${param} \"-D _topdir /workspace/build\""@
}

pub open spec fn probe_tail() -> Seq<char> {
    " /workspace/build/SPECS/*.spec 2>&1 || true) | (grep -v ^error: || true) | grep -E '([^ ]*) is needed by [^ ]+$' | sed -E 's/[\\t]/ /g' | sed -E 's/ +(.*) is needed by [^ ]+$/\\1/g'\n"@
}

/// The script that lists the build dependencies the base image lacks, one
/// per line: it installs the SRPM, asks `rpmbuild -br` (or `-bp` where `-br`
/// is not supported) with the parameters, and keeps the names it reports
/// as needed.
pub fn missing_deps_script(params: &Vec<String>) -> (r: String)
    ensures
        r@ == probe_head() + (if params@.len() == 0 {
            Seq::<char>::empty()
        } else {
            " "@ + joined(params@.map_values(|p: String| debug_text(p@)), " "@)
        }) + probe_tail(),
{
    let mut out = "rpm -D \"_topdir /workspace/build\" -i /workspace/srpm/*.src.rpm\nparam=\"-br\"\nif ! rpmbuild -br 2>/dev/null ; then\n    param=\"-bp\"\nfi\n(rpmbuild ${param} \"-D _topdir /workspace/build\"".to_owned();
    let p = format_params_for_command(params, " ");
    out.append(p.as_str());
    out.append(" /workspace/build/SPECS/*.spec 2>&1 || true) | (grep -v ^error: || true) | grep -E '([^ ]*) is needed by [^ ]+$' | sed -E 's/[\\t]/ /g' | sed -E 's/ +(.*) is needed by [^ ]+$/\\1/g'\n");
    out
}

/// `docker images -q <image>`: prints the image's id where it exists.
pub fn image_exists_command(image: &str) -> (r: String)
    ensures
        r@ == "docker images -q "@ + image@,
{
    let mut out = "docker images -q ".to_owned();
    out.append(image);
    out
}

/// `docker build <args> --no-cache -t <image> -`: builds the image from a
/// Dockerfile on standard input.
pub fn image_build_command(args: &str, image: &str) -> (r: String)
    ensures
        r@ == "docker build "@ + args@ + " --no-cache -t "@ + image@ + " -"@,
{
    let mut out = "docker build ".to_owned();
    out.append(args);
    out.append(" --no-cache -t ");
    out.append(image);
    out.append(" -");
    out
}

#[derive(Debug, PartialEq, Eq)]
pub enum ContainerBuildError {
    /// The build command failed.
    BuildFailed,
    /// Prepare-only mode stops after unpacking the sources, on purpose, so
    /// that they can be inspected under `/workspace/build/BUILD`.
    StoppedAfterPrepare,
}

/// The outcome of the container build: a failed command fails it, and in
/// prepare-only mode it fails on purpose even when the command succeeded.
pub fn container_build_outcome(prepare_only: bool, command_succeeded: bool) -> (r: Result<(), ContainerBuildError>)
    ensures
        r == if !command_succeeded {
            Err(ContainerBuildError::BuildFailed)
        } else if prepare_only {
            Err(ContainerBuildError::StoppedAfterPrepare)
        } else {
            Ok::<(), ContainerBuildError>(())
        },
{
    if !command_succeeded {
        Err(ContainerBuildError::BuildFailed)
    } else if prepare_only {
        Err(ContainerBuildError::StoppedAfterPrepare)
    } else {
        Ok(())
    }
}

} // verus!
