//! Which lyrics service to ask, and where its endpoints are.
use vstd::prelude::*;

verus! {

/// A lyrics service speaking the LRCLIB API.
#[derive(Debug, Clone, Copy, PartialEq, Eq, Structural)]
pub enum ProviderKind {
    /// The reference LRCLIB API: <https://lrclib.net/docs>
    Lrclib,
    /// lrcmux's LRCLIB-compatible shim, aggregating multiple sources: <https://lrcmux.dev/docs>
    Lrcmux,
}

/// A service's name, its exact-lookup and search endpoints, and the header, if any, it reads
/// the client's name from.
#[derive(Debug, Clone, Copy)]
pub struct ProviderSpec {
    pub name: &'static str,
    pub get_url: &'static str,
    pub search_url: &'static str,
    pub client_header: Option<&'static str>,
}

pub open spec fn spec_of(kind: ProviderKind) -> (Seq<char>, Seq<char>, Seq<char>, Option<Seq<char>>) {
    match kind {
        ProviderKind::Lrclib => (
            "lrclib"@,
            "https://lrclib.net/api/get"@,
            "https://lrclib.net/api/search"@,
            Some("Lrclib-Client"@),
        ),
        ProviderKind::Lrcmux => (
            "lrcmux"@,
            "https://api.lrcmux.dev/compat/lrclib/api/get"@,
            "https://api.lrcmux.dev/compat/lrclib/api/search"@,
            None,
        ),
    }
}

impl ProviderKind {
    /// The service's endpoints.
    pub fn spec(self) -> (r: ProviderSpec)
        ensures
            (r.name@, r.get_url@, r.search_url@, match r.client_header {
                Some(h) => Some(h@),
                None => None,
            }) == spec_of(self),
    {
        match self {
            ProviderKind::Lrclib => ProviderSpec {
                name: "lrclib",
                get_url: "https://lrclib.net/api/get",
                search_url: "https://lrclib.net/api/search",
                client_header: Some("Lrclib-Client"),
            },
            ProviderKind::Lrcmux => ProviderSpec {
                name: "lrcmux",
                get_url: "https://api.lrcmux.dev/compat/lrclib/api/get",
                search_url: "https://api.lrcmux.dev/compat/lrclib/api/search",
                client_header: None,
            },
        }
    }

}

/// Every service has its own endpoints: the two never share a URL or a name.
pub proof fn lemma_providers_are_distinct()
    ensures
        spec_of(ProviderKind::Lrclib).0 != spec_of(ProviderKind::Lrcmux).0,
        spec_of(ProviderKind::Lrclib).1 != spec_of(ProviderKind::Lrcmux).1,
        spec_of(ProviderKind::Lrclib).2 != spec_of(ProviderKind::Lrcmux).2,
{
    reveal_strlit("lrclib");
    reveal_strlit("lrcmux");
    reveal_strlit("https://lrclib.net/api/get");
    reveal_strlit("https://api.lrcmux.dev/compat/lrclib/api/get");
    reveal_strlit("https://lrclib.net/api/search");
    reveal_strlit("https://api.lrcmux.dev/compat/lrclib/api/search");
    assert("lrclib"@[3] != "lrcmux"@[3]);
    assert("https://lrclib.net/api/get"@[8] != "https://api.lrcmux.dev/compat/lrclib/api/get"@[8]);
    assert("https://lrclib.net/api/search"@[8] != "https://api.lrcmux.dev/compat/lrclib/api/search"@[8]);
}

} // verus!
