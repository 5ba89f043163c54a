//! A declared dependency: a source key, optionally marked `~` (only direct).

use vstd::prelude::*;

verus! {

/// Whether a declared dependency string carries the only-direct marker `~`.
pub open spec fn is_marked(s: Seq<char>) -> bool {
    s.len() > 0 && s[0] == '~'
}

/// The source key that a declared dependency string names.
pub open spec fn target_of(s: Seq<char>) -> Seq<char> {
    if is_marked(s) {
        s.drop_first()
    } else {
        s
    }
}

#[derive(Debug)]
pub enum Dependency {
    /// Followed at every depth of resolution.
    Regular(String),
    /// Followed only where the declaring source is the root of resolution.
    OnlyDirect(String),
}

impl Dependency {
    pub open spec fn key_view(&self) -> Seq<char> {
        match self {
            Dependency::Regular(k) => k@,
            Dependency::OnlyDirect(k) => k@,
        }
    }

    pub open spec fn parsed_from(&self, s: Seq<char>) -> bool {
        &&& self.key_view() == target_of(s)
        &&& (self is OnlyDirect) == is_marked(s)
    }

    /// A leading `~` makes the dependency only-direct; the rest is its key.
    pub fn parse(dep_str: &str) -> (r: Self)
        ensures
            r.parsed_from(dep_str@),
    {
        let n = dep_str.unicode_len();
        if n > 0 && dep_str.get_char(0) == '~' {
            let rest = dep_str.substring_char(1, n);
            Dependency::OnlyDirect(rest.to_owned())
        } else {
            Dependency::Regular(dep_str.to_owned())
        }
    }

    pub fn key(&self) -> (r: &str)
        ensures
            r@ == self.key_view(),
    {
        match self {
            Dependency::Regular(key) => key.as_str(),
            Dependency::OnlyDirect(key) => key.as_str(),
        }
    }

    pub fn is_direct_only(&self) -> (r: bool)
        ensures
            r == (self is OnlyDirect),
    {
        matches!(self, Dependency::OnlyDirect(_))
    }

    pub fn parse_list(dep_strings: &[String]) -> (r: Vec<Self>)
        ensures
            r@.len() == dep_strings@.len(),
            forall|i: int| 0 <= i < r@.len() ==> #[trigger] r@[i].parsed_from(dep_strings@[i]@),
    {
        let mut out: Vec<Self> = Vec::new();
        let mut i: usize = 0;
        while i < dep_strings.len()
            invariant
                i <= dep_strings@.len(),
                out@.len() == i,
                forall|j: int| 0 <= j < i ==> #[trigger] out@[j].parsed_from(dep_strings@[j]@),
            decreases dep_strings@.len() - i,
        {
            out.push(Dependency::parse(dep_strings[i].as_str()));
            i = i + 1;
        }
        out
    }
}

} // verus!
