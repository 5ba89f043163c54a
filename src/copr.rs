//! The remote build service: the persistent state of its builds, the
//! decision that a recorded state makes, and reading a submission's id.

use vstd::prelude::*;
use crate::keys::BuildKey;
use crate::text::{split_lines, lines_of, starts_with, suffix_from, trim, trimmed, parse_u64, is_u64_text, decimal_value, decimal_digits};

verus! {

#[derive(Debug, Clone, Copy, PartialEq, Eq, Structural)]
pub enum CoprBuildStatus {
    Submitted,
    InProgress,
    Completed,
    Failed,
}

/// What the state file records of one remote build.
#[derive(Debug)]
pub struct CoprBuildState {
    pub build_key: String,
    pub build_id: u64,
    pub status: CoprBuildStatus,
}

impl Clone for CoprBuildState {
    fn clone(&self) -> (r: Self)
        ensures
            r == *self,
    {
        CoprBuildState { build_key: self.build_key.clone(), build_id: self.build_id, status: self.status }
    }
}

/// The state file: a record per build, keyed by `<key>-<hash>`.
#[derive(Debug)]
pub struct CoprStateFile {
    pub builds: Vec<(String, CoprBuildState)>,
}

/// The records by key; a later pair overrides an earlier one.
pub open spec fn state_map(v: Seq<(String, CoprBuildState)>) -> Map<Seq<char>, CoprBuildState>
    decreases v.len(),
{
    if v.len() == 0 {
        Map::empty()
    } else {
        state_map(v.drop_last()).insert(v.last().0@, v.last().1)
    }
}

proof fn lemma_state_map_update(v: Seq<(String, CoprBuildState)>, i: int, k: String, s: CoprBuildState)
    requires
        0 <= i < v.len(),
        v[i].0@ == k@,
        forall|j: int| i < j < v.len() ==> (#[trigger] v[j]).0@ != k@,
    ensures
        state_map(v.update(i, (k, s))) == state_map(v).insert(k@, s),
    decreases v.len(),
{
    let w = v.update(i, (k, s));
    if i == v.len() - 1 {
        assert(w.drop_last() =~= v.drop_last());
        assert(state_map(w) =~= state_map(v).insert(k@, s));
    } else {
        lemma_state_map_update(v.drop_last(), i, k, s);
        assert(w.drop_last() =~= v.drop_last().update(i, (k, s)));
        assert(v.last().0@ != k@);
        assert(state_map(w) =~= state_map(v).insert(k@, s));
    }
}

impl CoprStateFile {
    pub open spec fn view_map(&self) -> Map<Seq<char>, CoprBuildState> {
        state_map(self.builds@)
    }

    pub fn new() -> (r: Self)
        ensures
            r.view_map() == Map::<Seq<char>, CoprBuildState>::empty(),
    {
        CoprStateFile { builds: Vec::new() }
    }

    fn position(&self, key: &String) -> (r: Option<usize>)
        ensures
            match r {
                Some(i) => i < self.builds@.len() && self.builds@[i as int].0@ == key@ && forall|j: int|
                    i < j < self.builds@.len() ==> (#[trigger] self.builds@[j]).0@ != key@,
                None => forall|j: int| 0 <= j < self.builds@.len() ==> (#[trigger] self.builds@[j]).0@ != key@,
            },
    {
        let mut i: usize = self.builds.len();
        while i > 0
            invariant
                i <= self.builds@.len(),
                forall|j: int| i <= j < self.builds@.len() ==> (#[trigger] self.builds@[j]).0@ != key@,
            decreases i,
        {
            i = i - 1;
            if self.builds[i].0 == *key {
                return Some(i);
            }
        }
        None
    }

    proof fn lemma_map_at(v: Seq<(String, CoprBuildState)>, i: int, k: Seq<char>)
        requires
            0 <= i < v.len(),
            v[i].0@ == k,
            forall|j: int| i < j < v.len() ==> (#[trigger] v[j]).0@ != k,
        ensures
            state_map(v).contains_key(k),
            state_map(v)[k] == v[i].1,
        decreases v.len(),
    {
        if i < v.len() - 1 {
            Self::lemma_map_at(v.drop_last(), i, k);
        }
    }

    proof fn lemma_map_absent(v: Seq<(String, CoprBuildState)>, k: Seq<char>)
        requires
            forall|j: int| 0 <= j < v.len() ==> (#[trigger] v[j]).0@ != k,
        ensures
            !state_map(v).contains_key(k),
        decreases v.len(),
    {
        if v.len() > 0 {
            Self::lemma_map_absent(v.drop_last(), k);
        }
    }

    /// The record of `build_key`, if there is one.
    pub fn get_build_state(&self, build_key: &BuildKey) -> (r: Option<&CoprBuildState>)
        ensures
            match r {
                Some(s) => self.view_map().contains_key(build_key.dir_name()) && self.view_map()[build_key.dir_name()]
                    == *s,
                None => !self.view_map().contains_key(build_key.dir_name()),
            },
    {
        let key = build_key.build_dir_name();
        match self.position(&key) {
            Some(i) => {
                proof {
                    Self::lemma_map_at(self.builds@, i as int, key@);
                }
                Some(&self.builds[i].1)
            },
            None => {
                proof {
                    Self::lemma_map_absent(self.builds@, key@);
                }
                None
            },
        }
    }

    /// Records `build_state` for `build_key`, replacing any earlier record.
    pub fn set_build_state(&mut self, build_key: &BuildKey, build_state: CoprBuildState)
        ensures
            final(self).view_map() == old(self).view_map().insert(build_key.dir_name(), build_state),
    {
        let key = build_key.build_dir_name();
        match self.position(&key) {
            Some(i) => {
                proof {
                    lemma_state_map_update(self.builds@, i as int, key, build_state);
                }
                self.builds.set(i, (key, build_state));
            },
            None => {
                self.builds.push((key, build_state));
                proof {
                    assert(self.builds@.drop_last() =~= old(self).builds@);
                }
            },
        }
    }

    /// Sets the status of the record of `build_key`, if there is one.
    pub fn set_status(&mut self, build_key: &BuildKey, status: CoprBuildStatus)
        ensures
            old(self).view_map().contains_key(build_key.dir_name()) ==> final(self).view_map() == old(
                self,
            ).view_map().insert(
                build_key.dir_name(),
                CoprBuildState { status, ..old(self).view_map()[build_key.dir_name()] },
            ),
            !old(self).view_map().contains_key(build_key.dir_name()) ==> final(self).view_map() == old(
                self,
            ).view_map(),
    {
        let key = build_key.build_dir_name();
        match self.position(&key) {
            Some(i) => {
                proof {
                    Self::lemma_map_at(self.builds@, i as int, key@);
                }
                let old_state = self.builds[i].1.clone();
                let new_state = CoprBuildState { status, ..old_state };
                proof {
                    lemma_state_map_update(self.builds@, i as int, key, new_state);
                }
                self.builds.set(i, (key, new_state));
            },
            None => {
                proof {
                    Self::lemma_map_absent(self.builds@, key@);
                }
            },
        }
    }
}

/// What a remote build task does, given the recorded state of its build.
#[derive(Debug, PartialEq, Eq, Structural)]
pub enum RemoteStep {
    /// The build completed in an earlier run: nothing to do.
    AlreadyCompleted,
    /// A build was submitted earlier and has not finished: wait for it.
    WaitFor(u64),
    /// No usable build: generate the SRPM and submit it.
    Submit,
}

pub fn remote_step(existing: Option<&CoprBuildState>) -> (r: RemoteStep)
    ensures
        match existing {
            None => r == RemoteStep::Submit,
            Some(s) => match s.status {
                CoprBuildStatus::Completed => r == RemoteStep::AlreadyCompleted,
                CoprBuildStatus::Failed => r == RemoteStep::Submit,
                _ => r == RemoteStep::WaitFor(s.build_id),
            },
        },
{
    match existing {
        None => RemoteStep::Submit,
        Some(s) => match s.status {
            CoprBuildStatus::Completed => RemoteStep::AlreadyCompleted,
            CoprBuildStatus::Failed => RemoteStep::Submit,
            CoprBuildStatus::Submitted | CoprBuildStatus::InProgress => RemoteStep::WaitFor(s.build_id),
        },
    }
}

/// The status a build gets from the outcome of watching it.
pub fn status_after_watch(succeeded: bool) -> (r: CoprBuildStatus)
    ensures
        r == (if succeeded {
            CoprBuildStatus::Completed
        } else {
            CoprBuildStatus::Failed
        }),
{
    if succeeded {
        CoprBuildStatus::Completed
    } else {
        CoprBuildStatus::Failed
    }
}

#[derive(Debug)]
pub enum BuildIdError {
    /// No line of the output starts with `Created builds: `.
    NoBuildLine,
    /// The text after it is not a build id.
    InvalidBuildId(String),
}

pub open spec fn build_line_prefix() -> Seq<char> {
    "Created builds: "@
}

/// Line `i` is the first that starts with the submission prefix.
pub open spec fn first_build_line(lines: Seq<Seq<char>>, i: int) -> bool {
    &&& 0 <= i < lines.len()
    &&& build_line_prefix().is_prefix_of(lines[i])
    &&& forall|j: int| 0 <= j < i ==> !build_line_prefix().is_prefix_of(#[trigger] lines[j])
}

/// The id text on a line that starts with the submission prefix.
pub open spec fn id_text(line: Seq<char>) -> Seq<char> {
    trimmed(line.subrange(build_line_prefix().len() as int, line.len() as int))
}

/// The build id that `copr build` printed: the number after
/// `Created builds: ` on the first line that starts with it.
pub fn extract_copr_build_id(output: &str) -> (r: Result<u64, BuildIdError>)
    ensures
        match r {
            Ok(v) => exists|i: int|
                first_build_line(lines_of(output@), i) && is_u64_text(id_text(lines_of(output@)[i])) && v as nat
                    == decimal_value(decimal_digits(id_text(lines_of(output@)[i]))),
            Err(BuildIdError::NoBuildLine) => forall|j: int|
                0 <= j < lines_of(output@).len() ==> !build_line_prefix().is_prefix_of(#[trigger] lines_of(output@)[j]),
            Err(BuildIdError::InvalidBuildId(t)) => exists|i: int|
                first_build_line(lines_of(output@), i) && t@ == id_text(lines_of(output@)[i]) && !is_u64_text(t@),
        },
{
    let lines = split_lines(output);
    let ghost ls = lines_of(output@);
    let prefix = "Created builds: ";
    proof {
        reveal_strlit("Created builds: ");
        assert(lines@.map_values(|l: String| l@) == ls);
    }
    let mut i: usize = 0;
    while i < lines.len()
        invariant
            ls == lines@.map_values(|l: String| l@),
            ls == lines_of(output@),
            prefix@ == build_line_prefix(),
            i <= lines@.len(),
            forall|j: int| 0 <= j < i ==> !build_line_prefix().is_prefix_of(#[trigger] ls[j]),
        decreases lines@.len() - i,
    {
        let line = lines[i].as_str();
        proof {
            assert(ls[i as int] == line@);
        }
        if starts_with(line, prefix) {
            let rest = suffix_from(line, prefix.unicode_len());
            let id_str = trim(rest.as_str());
            proof {
                assert(first_build_line(ls, i as int));
                assert(id_str@ == id_text(ls[i as int]));
            }
            return match parse_u64(id_str.as_str()) {
                Some(v) => {
                    proof {
                        assert(first_build_line(ls, i as int) && is_u64_text(id_text(ls[i as int])));
                    }
                    Ok(v)
                },
                None => Err(BuildIdError::InvalidBuildId(id_str)),
            };
        }
        i = i + 1;
    }
    Err(BuildIdError::NoBuildLine)
}

} // verus!
