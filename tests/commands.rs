use spectree::backend::BuilderBackend;
use spectree::commands::{
    build_start, copr_build_command, fedpkg_srpm_command, format_params_for_command, indexes_dependency_repo,
    mock_command, needs_dependency_repo, rpmbuild_srpm_command, tmp_dir_name, BuildStart,
};
use spectree::copr::{CoprBuildState, CoprBuildStatus};
use spectree::dependency::Dependency;
use spectree::docker::{
    container_build_command, container_build_outcome, deps_dockerfile, deps_image, get_builder_dockerfile_for_os,
    image_build_command, image_exists_command, image_name, missing_deps_script, sort_texts, unresolvable_package,
    ContainerBuildError, DockerError,
};
use spectree::host::{
    base_os_from_os_release, select_single_spec, select_single_srpm, validate_options, OptionsError, OsError,
    SpecFileError, SrpmError,
};
use spectree::keys::{BuildHash, BuildKey, SourceKey};
use spectree::source::{
    export_archive_command, exported_dir_name, recorded_revision, repo_location, repo_sync_commands, requires_clean_worktree,
    substitute_name, tree_hash_command, RepoLocation, SourceError,
};
use spectree::spec_tree::{Source, SourceType};
use spectree::text::{parse_u64, split_lines};

fn strings(v: &[&str]) -> Vec<String> {
    v.iter().map(|s| s.to_string()).collect()
}

fn git(url: Option<&str>, path: Option<&str>, subpath: Option<&str>, revision: Option<&str>) -> Source {
    Source {
        typ: SourceType::Git {
            url: url.map(|s| s.to_string()),
            path: path.map(|s| s.to_string()),
            subpath: subpath.map(|s| s.to_string()),
            revision: revision.map(|s| s.to_string()),
        },
        dependencies: Vec::new(),
        params: Vec::new(),
        network: false,
    }
}

#[test]
fn dependency_parsing() {
    let d = Dependency::parse("~foo");
    assert!(d.is_direct_only());
    assert_eq!(d.key(), "foo");
    let d = Dependency::parse("bar");
    assert!(!d.is_direct_only());
    assert_eq!(d.key(), "bar");
    let l = Dependency::parse_list(&strings(&["a", "~b"]));
    assert_eq!(l.len(), 2);
    assert!(matches!(&l[0], Dependency::Regular(k) if k == "a"));
    assert!(matches!(&l[1], Dependency::OnlyDirect(k) if k == "b"));
}

#[test]
fn params_are_quoted_for_commands() {
    assert_eq!(format_params_for_command(&Vec::new(), " -- "), "");
    assert_eq!(format_params_for_command(&strings(&["--with", "a b"]), " -- "), " -- \"--with\" \"a b\"");
}

#[test]
fn mock_command_line() {
    let with_deps = mock_command("/w/b.tmp/build", "/w/x.src.rpm", Some("/w/b.tmp/deps"), &strings(&["--with", "x"]));
    assert_eq!(with_deps, "mock --resultdir /w/b.tmp/build --addrepo /w/b.tmp/deps /w/x.src.rpm --with x");
    let plain = mock_command("/b", "/s.src.rpm", None, &Vec::new());
    assert_eq!(plain, "mock --resultdir /b /s.src.rpm");
}

#[test]
fn copr_command_line() {
    let c = copr_build_command("me/proj", "/s.src.rpm", &strings(&["epel-8-x86_64", "epel-9-aarch64"]), true);
    assert_eq!(
        c,
        "copr build --nowait me/proj /s.src.rpm --exclude-chroot epel-8-x86_64 --exclude-chroot epel-9-aarch64 --enable-net on"
    );
    assert_eq!(copr_build_command("p", "s", &Vec::new(), false), "copr build --nowait p s");
}

#[test]
fn srpm_command_lines() {
    assert_eq!(
        fedpkg_srpm_command("epel9", "/b/srpm", None, &Vec::new()),
        "fedpkg --release epel9 srpm --define \"_srcrpmdir /b/srpm\""
    );
    assert_eq!(
        fedpkg_srpm_command("epel9", "/b/srpm", Some(("/r/SOURCES", "/r/SPECS")), &strings(&["x"])),
        "fedpkg --release epel9 srpm --define \"_srcrpmdir /b/srpm\" --define \"_sourcedir /r/SOURCES\" --define \"_specdir /r/SPECS\" -- \"x\""
    );
    assert_eq!(
        rpmbuild_srpm_command("/r", "/o", "/r/SPECS/a.spec"),
        "rpmbuild -bs --define \"_topdir /r\" --define \"_srcrpmdir /o\" \"/r/SPECS/a.spec\""
    );
}

#[test]
fn build_directories() {
    let k = BuildKey::new(SourceKey::new("pkg".to_string()), BuildHash::new("abc".to_string()));
    assert_eq!(k.build_dir_name(), "pkg-abc");
    assert_eq!(tmp_dir_name(&k), "pkg-abc.tmp");
}

#[test]
fn build_start_decisions() {
    // a fresh workspace builds with no dependency repository; a second run skips
    assert_eq!(build_start(BuilderBackend::Null, false, None), BuildStart::Build);
    assert!(!needs_dependency_repo(BuilderBackend::Null, 0));
    assert_eq!(build_start(BuilderBackend::Null, true, None), BuildStart::AlreadyBuilt);
    assert_eq!(build_start(BuilderBackend::Mock, false, None), BuildStart::Build);
    let s = CoprBuildState { build_key: "X-h".to_string(), build_id: 42, status: CoprBuildStatus::InProgress };
    assert_eq!(build_start(BuilderBackend::Copr, true, Some(&s)), BuildStart::WaitForRemote(42));
    assert_eq!(build_start(BuilderBackend::Copr, true, None), BuildStart::Build);
    assert!(needs_dependency_repo(BuilderBackend::Mock, 2));
    assert!(!needs_dependency_repo(BuilderBackend::Null, 0));
    assert!(!needs_dependency_repo(BuilderBackend::Copr, 3));
    assert!(!indexes_dependency_repo(BuilderBackend::Docker));
    assert!(indexes_dependency_repo(BuilderBackend::Mock));
}

#[test]
fn backend_names() {
    assert_eq!(BuilderBackend::parse("Docker"), Some(BuilderBackend::Docker));
    assert_eq!(BuilderBackend::parse("COPR"), Some(BuilderBackend::Copr));
    assert_eq!(BuilderBackend::parse("mock"), Some(BuilderBackend::Mock));
    assert_eq!(BuilderBackend::parse("bogus"), None);
    assert_eq!(BuilderBackend::Null.name(), "null");
    assert!(BuilderBackend::Copr.is_remote());
    assert!(!BuilderBackend::Mock.is_remote());
    assert_eq!(BuilderBackend::default(), BuilderBackend::Mock);
}

#[test]
fn name_substitution() {
    let k = SourceKey::new("pkg".to_string());
    assert_eq!(substitute_name("/src/${NAME}/x${NAME}", &k), "/src/pkg/xpkg");
    assert_eq!(substitute_name("plain", &k), "plain");
    assert_eq!(substitute_name("${NAM", &k), "${NAM");
}

#[test]
fn repo_locations() {
    let k = SourceKey::new("pkg".to_string());
    assert_eq!(repo_location(&git(None, Some("/p/${NAME}"), None, None), &k), Ok(RepoLocation::Path("/p/pkg".to_string())));
    assert_eq!(
        repo_location(&git(Some("file:///r/${NAME}"), None, None, None), &k),
        Ok(RepoLocation::FileUrl("/r/pkg".to_string()))
    );
    assert_eq!(
        repo_location(&git(Some("https://h/${NAME}.git"), None, None, None), &k),
        Ok(RepoLocation::Remote("https://h/pkg.git".to_string()))
    );
    assert_eq!(repo_location(&git(None, None, None, None), &k), Err(SourceError::InvalidGitSource));
    let srpm = Source { typ: SourceType::Srpm { path: "/x".to_string() }, dependencies: Vec::new(), params: Vec::new(), network: false };
    assert_eq!(repo_location(&srpm, &k), Err(SourceError::SrpmNotImplemented));
}

#[test]
fn pinned_revision_skips_clean_check() {
    assert!(!requires_clean_worktree(&git(None, Some("/p"), None, Some("v1.0"))));
    assert!(requires_clean_worktree(&git(None, Some("/p"), None, None)));
}

#[test]
fn git_commands() {
    assert_eq!(tree_hash_command("HEAD", None), "git rev-parse HEAD^{tree}");
    assert_eq!(tree_hash_command("abc123", Some("pkgs/foo")), "git rev-parse abc123:pkgs/foo");
    assert_eq!(export_archive_command("v1", Some("sub")), "git archive --format=tar v1 sub");
    assert_eq!(export_archive_command("v1", None), "git archive --format=tar v1");
    let k = SourceKey::new("pkg".to_string());
    assert_eq!(exported_dir_name(&k, "deadbeef"), "pkg-deadbeef");
    let sync = repo_sync_commands(true, "u", "d");
    assert_eq!(sync, vec![strings(&["fetch", "origin"]), strings(&["reset", "--hard", "origin/HEAD"])]);
    let sync = repo_sync_commands(false, "u", "d");
    assert_eq!(sync, vec![strings(&["clone", "u", "d"])]);
}

#[test]
fn docker_images() {
    assert!(get_builder_dockerfile_for_os("epel10").unwrap().starts_with("FROM rockylinux:10\n"));
    assert_eq!(get_builder_dockerfile_for_os("epel9"), Err(DockerError::UnsupportedOs("epel9".to_string())));
    assert_eq!(image_name("epel10"), "spectree.ops/epel10");
    assert_eq!(image_name("spectree.ops/epel10"), "spectree.ops/epel10");
    let (text, tag) = deps_image("spectree.ops/epel10", &strings(&["zlib-devel", "gcc"]));
    assert_eq!(text, "\"gcc\" \"zlib-devel\"");
    assert_eq!(tag, "spectree.ops/epel10:7ca3ee52be1ebd42fd70bc42bac5f304c7f1a65c91b0feca05948323ab3b4dd0");
    assert_eq!(tag.len(), "spectree.ops/epel10:".len() + 64);
    assert_eq!(deps_dockerfile("img", "\"gcc\"", false), "FROM img\nRUN dnf install -y \"gcc\"\n");
    assert!(deps_dockerfile("img", "\"gcc\"", true).contains("--enablerepo=deps -y \"gcc\"\nRUN rm -rf /deps\n"));
    assert_eq!(sort_texts(&strings(&["b", "a", "b"])), strings(&["a", "b", "b"]));
}

#[test]
fn unresolvable_packages_are_found() {
    let err = "building...\nError: Unable to find a match: libfoo-devel\nmore";
    assert_eq!(unresolvable_package(err), Some("libfoo-devel".to_string()));
    assert_eq!(unresolvable_package("all fine"), None);
}

#[test]
fn container_build_commands() {
    assert_eq!(
        container_build_command(false, &Vec::new()),
        "rpmbuild -ba -D \"_topdir /workspace/build\" /workspace/build/SPECS/*.spec"
    );
    assert_eq!(
        container_build_command(true, &strings(&["--with", "x"])),
        "rpmbuild -bp -D \"_topdir /workspace/build\" \"--with\" \"x\" /workspace/build/SPECS/*.spec"
    );
}

#[test]
fn os_release_targets() {
    assert_eq!(base_os_from_os_release("NAME=\"Rocky\"\nID=\"rocky\"\nVERSION_ID=\"9.4\"\n"), Ok("epel9".to_string()));
    assert_eq!(base_os_from_os_release("ID=rocky\nVERSION_ID=10.0"), Ok("epel10".to_string()));
    assert_eq!(base_os_from_os_release("ID=rocky\nVERSION_ID=8"), Ok("epel8".to_string()));
    assert_eq!(
        base_os_from_os_release("ID=fedora\nVERSION_ID=40"),
        Err(OsError::Unsupported { id: "fedora".to_string(), version: "40".to_string() })
    );
    assert_eq!(base_os_from_os_release("NAME=x"), Err(OsError::CouldNotParse));
}

#[test]
fn option_checks() {
    assert_eq!(validate_options(BuilderBackend::Copr, false, true, false), Err(OptionsError::MissingCoprProject));
    assert_eq!(validate_options(BuilderBackend::Copr, true, false, false), Err(OptionsError::MissingCoprStateFile));
    assert_eq!(validate_options(BuilderBackend::Mock, false, false, true), Err(OptionsError::DebugPrepareNeedsDocker));
    assert_eq!(validate_options(BuilderBackend::Docker, false, false, true), Ok(()));
}

#[test]
fn single_srpm_selection() {
    assert_eq!(select_single_srpm(&strings(&["a.txt", "foo-1.src.rpm"])), Ok(1));
    assert_eq!(select_single_srpm(&strings(&["a.txt"])), Err(SrpmError::NoSrpm));
    assert_eq!(select_single_srpm(&strings(&["a.src.rpm", "b.src.rpm"])), Err(SrpmError::MultipleSrpms));
}

#[test]
fn numbers_and_lines() {
    assert_eq!(parse_u64("+12"), Some(12));
    assert_eq!(parse_u64("18446744073709551615"), Some(u64::MAX));
    assert_eq!(parse_u64("18446744073709551616"), None);
    assert_eq!(parse_u64(""), None);
    assert_eq!(parse_u64("1a"), None);
    assert_eq!(split_lines("a\nb\r\n\nc\r"), strings(&["a", "b", "", "c\r"]));
    assert_eq!(split_lines("x\n"), strings(&["x"]));
}

#[test]
fn manifest_records_resolved_commit() {
    let pinned = git(None, Some("/p"), None, Some("main"));
    assert_eq!(recorded_revision(&pinned, Some("0123abcd"), Some("ffff")), Some("0123abcd".to_string()));
    assert_eq!(recorded_revision(&pinned, None, Some("ffff")), None);
    let floating = git(None, Some("/p"), None, None);
    assert_eq!(recorded_revision(&floating, Some("0123abcd"), Some("ffff")), Some("ffff".to_string()));
    assert_eq!(recorded_revision(&floating, None, None), None);
}

#[test]
fn image_commands() {
    assert_eq!(image_exists_command("spectree.ops/epel10"), "docker images -q spectree.ops/epel10");
    assert_eq!(image_build_command("--layers=false", "img:1"), "docker build --layers=false --no-cache -t img:1 -");
    let script = missing_deps_script(&strings(&["--with", "x"]));
    assert!(script.starts_with("rpm -D \"_topdir /workspace/build\" -i /workspace/srpm/*.src.rpm\n"));
    assert!(script.contains("\"-D _topdir /workspace/build\" \"--with\" \"x\" /workspace/build/SPECS/*.spec"));
    assert!(missing_deps_script(&Vec::new()).contains("\"-D _topdir /workspace/build\" /workspace/build/SPECS/*.spec"));
}

#[test]
fn container_outcomes() {
    assert_eq!(container_build_outcome(false, true), Ok(()));
    assert_eq!(container_build_outcome(true, true), Err(ContainerBuildError::StoppedAfterPrepare));
    assert_eq!(container_build_outcome(true, false), Err(ContainerBuildError::BuildFailed));
    assert_eq!(container_build_outcome(false, false), Err(ContainerBuildError::BuildFailed));
}

#[test]
fn single_spec_selection() {
    assert_eq!(select_single_spec(&strings(&["README", "foo.spec"])), Ok(1));
    assert_eq!(select_single_spec(&strings(&[".spec"])), Err(SpecFileError::NoSpecFile));
    assert_eq!(select_single_spec(&strings(&["a.spec", "b.spec"])), Err(SpecFileError::MultipleSpecFiles));
}
