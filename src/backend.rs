//! The back-ends that turn an SRPM into built packages.

use vstd::prelude::*;
use crate::text::same_text;

verus! {

#[derive(Debug, Clone, Copy, PartialEq, Eq, Structural)]
pub enum BuilderBackend {
    /// Local chroot builds with `mock`.
    Mock,
    /// Builds inside a container image.
    Docker,
    /// No build at all: for exercising the dependency graph.
    Null,
    /// Builds on the remote build service.
    Copr,
}

/// The back-end that a lower-case name selects.
pub open spec fn backend_named(s: Seq<char>) -> Option<BuilderBackend> {
    if s == "mock"@ {
        Some(BuilderBackend::Mock)
    } else if s == "null"@ {
        Some(BuilderBackend::Null)
    } else if s == "docker"@ {
        Some(BuilderBackend::Docker)
    } else if s == "copr"@ {
        Some(BuilderBackend::Copr)
    } else {
        None
    }
}

/// `s` in lower case, as `str::to_lowercase` gives it.
pub uninterp spec fn lower_of(s: Seq<char>) -> Seq<char>;

/// Relies on `str::to_lowercase`: the lower-case form, which depends on the
/// characters alone.
#[verifier::external_body]
fn lowercase(s: &str) -> (r: String)
    ensures
        r@ == lower_of(s@),
{
    s.to_lowercase()
}

impl BuilderBackend {
    pub fn is_remote(&self) -> (r: bool)
        ensures
            r == (*self == BuilderBackend::Copr),
    {
        matches!(self, BuilderBackend::Copr)
    }

    /// The back-end that an already lower-case name selects.
    pub fn from_lowercase(s: &str) -> (r: Option<BuilderBackend>)
        ensures
            r == backend_named(s@),
    {
        if same_text(s, "mock") {
            Some(BuilderBackend::Mock)
        } else if same_text(s, "null") {
            Some(BuilderBackend::Null)
        } else if same_text(s, "docker") {
            Some(BuilderBackend::Docker)
        } else if same_text(s, "copr") {
            Some(BuilderBackend::Copr)
        } else {
            None
        }
    }

    /// The back-end that a name selects, ignoring case.
    pub fn parse(s: &str) -> (r: Option<BuilderBackend>)
        ensures
            r == backend_named(lower_of(s@)),
    {
        let lower = lowercase(s);
        Self::from_lowercase(lower.as_str())
    }

    pub open spec fn name_view(&self) -> Seq<char> {
        match *self {
            BuilderBackend::Mock => "mock"@,
            BuilderBackend::Null => "null"@,
            BuilderBackend::Docker => "docker"@,
            BuilderBackend::Copr => "copr"@,
        }
    }

    /// The back-end's name: `mock`, `null`, `docker` or `copr`.
    pub fn name(&self) -> (r: String)
        ensures
            r@ == self.name_view(),
    {
        match self {
            BuilderBackend::Mock => String::from_str("mock"),
            BuilderBackend::Null => String::from_str("null"),
            BuilderBackend::Docker => String::from_str("docker"),
            BuilderBackend::Copr => String::from_str("copr"),
        }
    }
}

impl Default for BuilderBackend {
    fn default() -> (r: Self)
        ensures
            r == BuilderBackend::Mock,
    {
        BuilderBackend::Mock
    }
}

} // verus!
