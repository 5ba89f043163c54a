//! The host and the run's options: the target OS read from
//! `/etc/os-release`, the checks on the command-line options, and the files
//! that SRPM generation leaves.

use vstd::prelude::*;
use crate::backend::BuilderBackend;
use crate::text::{split_lines, lines_of, starts_with, suffix_from, same_text};

verus! {

/// `s` without its leading `"` characters.
pub open spec fn drop_leading_quotes(s: Seq<char>) -> Seq<char>
    decreases s.len(),
{
    if s.len() > 0 && s[0] == '"' {
        drop_leading_quotes(s.drop_first())
    } else {
        s
    }
}

/// `s` without its trailing `"` characters.
pub open spec fn drop_trailing_quotes(s: Seq<char>) -> Seq<char>
    decreases s.len(),
{
    if s.len() > 0 && s.last() == '"' {
        drop_trailing_quotes(s.drop_last())
    } else {
        s
    }
}

/// `s` without the `"` characters that begin and end it.
pub open spec fn unquoted(s: Seq<char>) -> Seq<char> {
    drop_trailing_quotes(drop_leading_quotes(s))
}

fn strip_quotes(s: &str) -> (r: String)
    ensures
        r@ == unquoted(s@),
{
    let n = s.unicode_len();
    let mut a: usize = 0;
    proof {
        assert(s@.subrange(0, n as int) =~= s@);
    }
    while a < n && s.get_char(a) == '"'
        invariant
            n == s@.len(),
            a <= n,
            drop_leading_quotes(s@) == drop_leading_quotes(s@.subrange(a as int, n as int)),
        decreases n - a,
    {
        proof {
            assert(s@.subrange(a as int, n as int).drop_first() =~= s@.subrange(a as int + 1, n as int));
        }
        a = a + 1;
    }
    let ghost lead = s@.subrange(a as int, n as int);
    proof {
        assert(drop_leading_quotes(lead) == lead);
    }
    let mut b: usize = n;
    while b > a && s.get_char(b - 1) == '"'
        invariant
            n == s@.len(),
            a <= b <= n,
            lead == s@.subrange(a as int, n as int),
            drop_trailing_quotes(lead) == drop_trailing_quotes(s@.subrange(a as int, b as int)),
        decreases b,
    {
        proof {
            assert(s@.subrange(a as int, b as int).drop_last() =~= s@.subrange(a as int, b as int - 1));
        }
        b = b - 1;
    }
    s.substring_char(a, b).to_owned()
}

/// The value of the last line of `lines` that starts with `prefix`,
/// unquoted.
pub open spec fn os_field(lines: Seq<Seq<char>>, prefix: Seq<char>) -> Option<Seq<char>>
    decreases lines.len(),
{
    if lines.len() == 0 {
        None
    } else if prefix.is_prefix_of(lines.last()) {
        Some(unquoted(lines.last().subrange(prefix.len() as int, lines.last().len() as int)))
    } else {
        os_field(lines.drop_last(), prefix)
    }
}

#[derive(Debug, PartialEq, Eq)]
pub enum OsError {
    /// The file names an OS that no target is known for.
    Unsupported { id: String, version: String },
    /// The file lacks `ID=` or `VERSION_ID=`.
    CouldNotParse,
}

/// The target for an OS: Rocky Linux 8, 9 or 10 map to EPEL 8, 9 or 10.
pub open spec fn target_for(id: Seq<char>, version: Seq<char>) -> Option<Seq<char>> {
    if id != "rocky"@ {
        None
    } else if "10"@.is_prefix_of(version) {
        Some("epel10"@)
    } else if "9"@.is_prefix_of(version) {
        Some("epel9"@)
    } else if "8"@.is_prefix_of(version) {
        Some("epel8"@)
    } else {
        None
    }
}

/// Reads the value of the last line starting with `prefix`.
fn field(lines: &Vec<String>, prefix: &str) -> (r: Option<String>)
    ensures
        match r {
            Some(v) => os_field(lines@.map_values(|l: String| l@), prefix@) == Some(v@),
            None => os_field(lines@.map_values(|l: String| l@), prefix@) is None,
        },
{
    let ghost ls = lines@.map_values(|l: String| l@);
    let mut i: usize = lines.len();
    proof {
        assert(ls.subrange(0, i as int) =~= ls);
    }
    while i > 0
        invariant
            i <= lines@.len(),
            ls == lines@.map_values(|l: String| l@),
            os_field(ls, prefix@) == os_field(ls.subrange(0, i as int), prefix@),
        decreases i,
    {
        let ghost pre = ls.subrange(0, i as int);
        i = i - 1;
        proof {
            assert(pre.drop_last() =~= ls.subrange(0, i as int));
            assert(pre.last() == lines@[i as int]@);
        }
        let line = lines[i].as_str();
        if starts_with(line, prefix) {
            let rest = suffix_from(line, prefix.unicode_len());
            return Some(strip_quotes(rest.as_str()));
        }
    }
    proof {
        assert(ls.subrange(0, 0) =~= Seq::<Seq<char>>::empty());
    }
    None
}

/// The build target for the host, from the text of `/etc/os-release`.
pub fn base_os_from_os_release(content: &str) -> (r: Result<String, OsError>)
    ensures
        ({
            let id = os_field(lines_of(content@), "ID="@);
            let version = os_field(lines_of(content@), "VERSION_ID="@);
            match r {
                Ok(t) => id is Some && version is Some && target_for(id.unwrap(), version.unwrap()) == Some(t@),
                Err(OsError::Unsupported { id: i, version: v }) => id == Some(i@) && version == Some(v@)
                    && target_for(i@, v@) is None,
                Err(OsError::CouldNotParse) => id is None || version is None,
            }
        }),
{
    let lines = split_lines(content);
    let id = field(&lines, "ID=");
    let version = field(&lines, "VERSION_ID=");
    match (id, version) {
        (Some(id), Some(version)) => {
            if same_text(id.as_str(), "rocky") {
                if starts_with(version.as_str(), "10") {
                    return Ok("epel10".to_owned());
                } else if starts_with(version.as_str(), "9") {
                    return Ok("epel9".to_owned());
                } else if starts_with(version.as_str(), "8") {
                    return Ok("epel8".to_owned());
                }
            }
            Err(OsError::Unsupported { id, version })
        },
        _ => Err(OsError::CouldNotParse),
    }
}

#[derive(Debug, PartialEq, Eq)]
pub enum OptionsError {
    /// The remote back-end needs a project.
    MissingCoprProject,
    /// The remote back-end needs a state file.
    MissingCoprStateFile,
    /// Prepare-only mode belongs to the container back-end.
    DebugPrepareNeedsDocker,
}

/// The checks on the run's options, in the order they are made.
pub fn validate_options(backend: BuilderBackend, has_copr_project: bool, has_copr_state_file: bool, debug_prepare: bool) -> (r: Result<(), OptionsError>)
    ensures
        r == if backend == BuilderBackend::Copr && !has_copr_project {
            Err(OptionsError::MissingCoprProject)
        } else if backend == BuilderBackend::Copr && !has_copr_state_file {
            Err(OptionsError::MissingCoprStateFile)
        } else if debug_prepare && backend != BuilderBackend::Docker {
            Err(OptionsError::DebugPrepareNeedsDocker)
        } else {
            Ok::<(), OptionsError>(())
        },
{
    if backend == BuilderBackend::Copr {
        if !has_copr_project {
            return Err(OptionsError::MissingCoprProject);
        }
        if !has_copr_state_file {
            return Err(OptionsError::MissingCoprStateFile);
        }
    }
    if debug_prepare && backend != BuilderBackend::Docker {
        return Err(OptionsError::DebugPrepareNeedsDocker);
    }
    Ok(())
}

#[derive(Debug, PartialEq, Eq)]
pub enum SrpmError {
    /// No source RPM was produced.
    NoSrpm,
    /// More than one source RPM was produced.
    MultipleSrpms,
}

/// The file name of a source RPM.
pub open spec fn is_srpm_name(name: Seq<char>) -> bool {
    ".src.rpm"@.is_suffix_of(name)
}

fn ends_with(s: &str, suffix: &str) -> (r: bool)
    ensures
        r == suffix@.is_suffix_of(s@),
{
    let n = s.unicode_len();
    let m = suffix.unicode_len();
    if m > n {
        return false;
    }
    let mut i: usize = 0;
    while i < m
        invariant
            n == s@.len(),
            m == suffix@.len(),
            m <= n,
            i <= m,
            forall|j: int| 0 <= j < i ==> s@[n - m + j] == suffix@[j],
        decreases m - i,
    {
        if s.get_char(n - m + i) != suffix.get_char(i) {
            return false;
        }
        i = i + 1;
    }
    proof {
        assert(s@.subrange(n - m, n as int) =~= suffix@);
    }
    true
}

/// The one source RPM among the files of the output directory.
pub fn select_single_srpm(names: &Vec<String>) -> (r: Result<usize, SrpmError>)
    ensures
        ({
            let hits = names@.map_values(|n: String| n@).filter(|n: Seq<char>| is_srpm_name(n));
            match r {
                Ok(i) => i < names@.len() && is_srpm_name(names@[i as int]@) && hits.len() == 1,
                Err(SrpmError::NoSrpm) => hits.len() == 0,
                Err(SrpmError::MultipleSrpms) => hits.len() > 1,
            }
        }),
{
    let ghost ns = names@.map_values(|n: String| n@);
    let ghost keep = |n: Seq<char>| is_srpm_name(n);
    let mut found: Option<usize> = None;
    let mut count: usize = 0;
    let mut i: usize = 0;
    proof {
        reveal(Seq::filter);
        assert(ns.subrange(0, 0).filter(keep) =~= Seq::<Seq<char>>::empty());
    }
    while i < names.len()
        invariant
            ns == names@.map_values(|n: String| n@),
            keep == (|n: Seq<char>| is_srpm_name(n)),
            i <= names@.len(),
            count <= 1,
            ns.subrange(0, i as int).filter(keep).len() == count,
            match found {
                Some(f) => count == 1 && f < names@.len() && is_srpm_name(names@[f as int]@),
                None => count == 0,
            },
        decreases names@.len() - i,
    {
        proof {
            reveal(Seq::filter);
            let s = ns.subrange(0, i as int + 1);
            assert(s.drop_last() =~= ns.subrange(0, i as int));
            assert(s.last() == names@[i as int]@);
        }
        if ends_with(names[i].as_str(), ".src.rpm") {
            if count == 1 {
                proof {
                    assert(ns.subrange(0, i as int + 1).filter(keep).len() == 2);
                    assert(ns.filter(keep).len() >= 2) by {
                        lemma_filter_prefix_len(ns, keep, i as int + 1);
                    }
                }
                return Err(SrpmError::MultipleSrpms);
            }
            found = Some(i);
            count = 1;
        }
        i = i + 1;
    }
    proof {
        assert(ns.subrange(0, names@.len() as int) =~= ns);
    }
    match found {
        Some(f) => Ok(f),
        None => Err(SrpmError::NoSrpm),
    }
}

/// Filtering a longer sequence keeps at least as many elements.
pub proof fn lemma_filter_prefix_len(s: Seq<Seq<char>>, p: spec_fn(Seq<char>) -> bool, k: int)
    requires
        0 <= k <= s.len(),
    ensures
        s.subrange(0, k).filter(p).len() <= s.filter(p).len(),
    decreases s.len() - k,
{
    reveal(Seq::filter);
    if k < s.len() {
        lemma_filter_prefix_len(s, p, k + 1);
        let t = s.subrange(0, k + 1);
        assert(t.drop_last() =~= s.subrange(0, k));
    } else {
        assert(s.subrange(0, k) =~= s);
    }
}

#[derive(Debug, PartialEq, Eq)]
pub enum SpecFileError {
    /// No spec file is there.
    NoSpecFile,
    /// More than one spec file is there.
    MultipleSpecFiles,
}

/// The file name of a spec file: a non-empty name with extension `spec`.
pub open spec fn is_spec_name(name: Seq<char>) -> bool {
    ".spec"@.is_suffix_of(name) && name.len() > 5
}

/// The one spec file among the files of a directory.
pub fn select_single_spec(names: &Vec<String>) -> (r: Result<usize, SpecFileError>)
    ensures
        ({
            let hits = names@.map_values(|n: String| n@).filter(|n: Seq<char>| is_spec_name(n));
            match r {
                Ok(i) => i < names@.len() && is_spec_name(names@[i as int]@) && hits.len() == 1,
                Err(SpecFileError::NoSpecFile) => hits.len() == 0,
                Err(SpecFileError::MultipleSpecFiles) => hits.len() > 1,
            }
        }),
{
    let ghost ns = names@.map_values(|n: String| n@);
    let ghost keep = |n: Seq<char>| is_spec_name(n);
    let mut found: Option<usize> = None;
    let mut count: usize = 0;
    let mut i: usize = 0;
    proof {
        reveal(Seq::filter);
        reveal_strlit(".spec");
        assert(ns.subrange(0, 0).filter(keep) =~= Seq::<Seq<char>>::empty());
    }
    while i < names.len()
        invariant
            ns == names@.map_values(|n: String| n@),
            keep == (|n: Seq<char>| is_spec_name(n)),
            ".spec"@.len() == 5,
            i <= names@.len(),
            count <= 1,
            ns.subrange(0, i as int).filter(keep).len() == count,
            match found {
                Some(f) => count == 1 && f < names@.len() && is_spec_name(names@[f as int]@),
                None => count == 0,
            },
        decreases names@.len() - i,
    {
        proof {
            reveal(Seq::filter);
            let s = ns.subrange(0, i as int + 1);
            assert(s.drop_last() =~= ns.subrange(0, i as int));
            assert(s.last() == names@[i as int]@);
        }
        if ends_with(names[i].as_str(), ".spec") && names[i].as_str().unicode_len() > 5 {
            if count == 1 {
                proof {
                    assert(ns.subrange(0, i as int + 1).filter(keep).len() == 2);
                    assert(ns.filter(keep).len() >= 2) by {
                        lemma_filter_prefix_len(ns, keep, i as int + 1);
                    }
                }
                return Err(SpecFileError::MultipleSpecFiles);
            }
            found = Some(i);
            count = 1;
        }
        i = i + 1;
    }
    proof {
        assert(ns.subrange(0, names@.len() as int) =~= ns);
    }
    match found {
        Some(f) => Ok(f),
        None => Err(SpecFileError::NoSpecFile),
    }
}

} // verus!
