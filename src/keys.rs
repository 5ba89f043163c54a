//! Identities: source keys, content hashes and build keys.

use vstd::prelude::*;

verus! {

/// The name of a source within a specification.
#[derive(Debug)]
pub struct SourceKey(pub String);

/// The content identity of a source (a git tree hash).
#[derive(Debug)]
pub struct SourceHash(pub String);

/// The identity of a build: source, dependencies and parameters.
#[derive(Debug)]
pub struct BuildHash(pub String);

impl View for SourceKey {
    type V = Seq<char>;

    open spec fn view(&self) -> Seq<char> {
        self.0@
    }
}

impl View for SourceHash {
    type V = Seq<char>;

    open spec fn view(&self) -> Seq<char> {
        self.0@
    }
}

impl View for BuildHash {
    type V = Seq<char>;

    open spec fn view(&self) -> Seq<char> {
        self.0@
    }
}

impl Clone for SourceKey {
    fn clone(&self) -> (r: Self)
        ensures
            r == *self,
    {
        SourceKey(self.0.clone())
    }
}

impl Clone for SourceHash {
    fn clone(&self) -> (r: Self)
        ensures
            r == *self,
    {
        SourceHash(self.0.clone())
    }
}

impl Clone for BuildHash {
    fn clone(&self) -> (r: Self)
        ensures
            r == *self,
    {
        BuildHash(self.0.clone())
    }
}

impl SourceKey {
    pub fn new(s: String) -> (r: Self)
        ensures
            r@ == s@,
    {
        SourceKey(s)
    }

    pub fn as_str(&self) -> (r: &str)
        ensures
            r@ == self@,
    {
        self.0.as_str()
    }

    pub fn same(&self, other: &SourceKey) -> (r: bool)
        ensures
            r == (self@ == other@),
    {
        self.0 == other.0
    }
}

impl SourceHash {
    pub fn new(s: String) -> (r: Self)
        ensures
            r@ == s@,
    {
        SourceHash(s)
    }

    pub fn as_str(&self) -> (r: &str)
        ensures
            r@ == self@,
    {
        self.0.as_str()
    }
}

impl BuildHash {
    pub fn new(s: String) -> (r: Self)
        ensures
            r@ == s@,
    {
        BuildHash(s)
    }

    pub fn as_str(&self) -> (r: &str)
        ensures
            r@ == self@,
    {
        self.0.as_str()
    }
}

/// The directory name of a build: `<key>-<hash>`.
pub open spec fn dir_name_of(key: Seq<char>, hash: Seq<char>) -> Seq<char> {
    key + seq!['-'] + hash
}

/// A build: a source together with the hash of what it is built from.
#[derive(Debug)]
pub struct BuildKey {
    pub source_key: SourceKey,
    pub build_hash: BuildHash,
}

impl Clone for BuildKey {
    fn clone(&self) -> (r: Self)
        ensures
            r == *self,
    {
        BuildKey { source_key: self.source_key.clone(), build_hash: self.build_hash.clone() }
    }
}

impl BuildKey {
    pub fn new(source_key: SourceKey, build_hash: BuildHash) -> (r: Self)
        ensures
            r.source_key == source_key,
            r.build_hash == build_hash,
    {
        BuildKey { source_key, build_hash }
    }

    pub open spec fn dir_name(&self) -> Seq<char> {
        dir_name_of(self.source_key@, self.build_hash@)
    }

    /// `<key>-<hash>`: the name of the build's directory and its key in the
    /// remote state file.
    pub fn build_dir_name(&self) -> (r: String)
        ensures
            r@ == self.dir_name(),
    {
        let s = self.source_key.0.clone();
        proof {
            reveal_strlit("-");
        }
        let s = s.concat("-");
        s.concat(self.build_hash.as_str())
    }
}

} // verus!
