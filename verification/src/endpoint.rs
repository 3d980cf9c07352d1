//! The two ends of a sync: paths on this machine or on another.

use crate::error::EndpointError;
use crate::text::{chars_of, find_char};
use vstd::prelude::*;

verus! {

/// A path on this machine.
#[derive(Debug, Clone, PartialEq, Eq)]
pub struct LocalEndpoint {
    pub path: String,
}

/// A path on another machine.
#[derive(Debug, Clone, PartialEq, Eq)]
pub struct RemoteEndpoint {
    pub user: Option<String>,
    pub host: String,
    pub path: String,
}

/// One end of a sync.
#[derive(Debug, Clone, PartialEq, Eq)]
pub enum Endpoint {
    Local(LocalEndpoint),
    Remote(RemoteEndpoint),
}

/// What an endpoint says.
pub enum Place {
    Local { path: Seq<char> },
    Remote { user: Option<Seq<char>>, host: Seq<char>, path: Seq<char> },
}

/// What an optional text says.
pub open spec fn text_in(text: Option<String>) -> Option<Seq<char>> {
    match text {
        Some(text) => Some(text@),
        None => None,
    }
}

impl RemoteEndpoint {
    pub open spec fn place(&self) -> Place {
        Place::Remote { user: text_in(self.user), host: self.host@, path: self.path@ }
    }
}

impl View for Endpoint {
    type V = Place;

    open spec fn view(&self) -> Place {
        match self {
            Endpoint::Local(local) => Place::Local { path: local.path@ },
            Endpoint::Remote(remote) => remote.place(),
        }
    }
}

/// Why a text names no endpoint.
pub enum Misspelling {
    MissingRemoteHost { spec: Seq<char> },
    MissingRemotePath { spec: Seq<char> },
    MissingRemoteUser { spec: Seq<char> },
}

impl View for EndpointError {
    type V = Misspelling;

    open spec fn view(&self) -> Misspelling {
        match self {
            EndpointError::MissingRemoteHost { spec } => Misspelling::MissingRemoteHost {
                spec: spec@,
            },
            EndpointError::MissingRemotePath { spec } => Misspelling::MissingRemotePath {
                spec: spec@,
            },
            EndpointError::MissingRemoteUser { spec } => Misspelling::MissingRemoteUser {
                spec: spec@,
            },
        }
    }
}

/// Where the host part of a text ends: at the first colon, unless a slash comes
/// before it. Without a host part the text is a local path.
pub open spec fn host_end(text: Seq<char>) -> Option<int> {
    match crate::text::first_at(text, ':', 0) {
        None => None,
        Some(colon) => match crate::text::first_at(text, '/', 0) {
            Some(slash) => if slash < colon {
                None
            } else {
                Some(colon)
            },
            None => Some(colon),
        },
    }
}

/// The remote endpoint with the given user part, host and path. Every part that
/// is there has to be non-empty.
pub open spec fn remote_place(
    text: Seq<char>,
    user: Option<Seq<char>>,
    host: Seq<char>,
    path: Seq<char>,
) -> Result<Place, Misspelling> {
    if user matches Some(name) && name.len() == 0 {
        Err(Misspelling::MissingRemoteUser { spec: text })
    } else if host.len() == 0 {
        Err(Misspelling::MissingRemoteHost { spec: text })
    } else if path.len() == 0 {
        Err(Misspelling::MissingRemotePath { spec: text })
    } else {
        Ok(Place::Remote { user, host, path })
    }
}

/// The endpoint that a text names: a local path, or `[user@]host:path`.
pub open spec fn place_named(text: Seq<char>) -> Result<Place, Misspelling> {
    match host_end(text) {
        None => Ok(Place::Local { path: text }),
        Some(colon) => {
            let prefix = text.take(colon);
            let path = text.skip(colon + 1);
            match crate::text::first_at(prefix, '@', 0) {
                None => remote_place(text, None, prefix, path),
                Some(at) => remote_place(text, Some(prefix.take(at)), prefix.skip(at + 1), path),
            }
        },
    }
}

/// The endpoint that `spec` names.
pub fn parse_endpoint(spec: &str) -> (endpoint: Result<Endpoint, EndpointError>)
    ensures
        match place_named(spec@) {
            Ok(place) => endpoint matches Ok(found) && found@ == place,
            Err(misspelling) => endpoint matches Err(error) && error@ == misspelling,
        },
{
    let chars = chars_of(spec);
    let len: usize = chars.len();
    proof {
        crate::text::lemma_first_at(spec@, ':', 0);
        crate::text::lemma_first_at(spec@, '/', 0);
    }
    let colon: usize = match (find_char(&chars, ':'), find_char(&chars, '/')) {
        (Some(colon), Some(slash)) if colon < slash => colon,
        (Some(colon), None) => colon,
        _ => {
            return Ok(Endpoint::Local(LocalEndpoint { path: spec.to_owned() }));
        },
    };
    let prefix = spec.substring_char(0, colon);
    let path = spec.substring_char(colon + 1, len);
    assert(prefix@ =~= spec@.take(colon as int));
    assert(path@ =~= spec@.skip(colon + 1));
    let (user, host): (Option<&str>, &str) = match find_char(&chars_of(prefix), '@') {
        Some(at) => {
            let user = prefix.substring_char(0, at);
            let host = prefix.substring_char(at + 1, colon);
            assert(user@ =~= prefix@.take(at as int));
            assert(host@ =~= prefix@.skip(at + 1));
            (Some(user), host)
        },
        None => (None, prefix),
    };
    if let Some(name) = user {
        if name.is_empty() {
            return Err(EndpointError::MissingRemoteUser { spec: spec.to_owned() });
        }
    }
    if host.is_empty() {
        return Err(EndpointError::MissingRemoteHost { spec: spec.to_owned() });
    }
    if path.is_empty() {
        return Err(EndpointError::MissingRemotePath { spec: spec.to_owned() });
    }
    let user = match user {
        Some(name) => Some(name.to_owned()),
        None => None,
    };
    Ok(Endpoint::Remote(RemoteEndpoint { user, host: host.to_owned(), path: path.to_owned() }))
}

/// Whether the part of `text` in front of `colon` names a host: a colon stands there, and
/// no colon or slash in front of it.
pub open spec fn host_ends_at(text: Seq<char>, colon: int) -> bool {
    &&& 0 <= colon < text.len()
    &&& text[colon] == ':'
    &&& forall|i: int| 0 <= i < colon ==> #[trigger] text[i] != ':' && text[i] != '/'
}

/// A text is a remote endpoint exactly if a colon stands in it with no slash in front. Up
/// to the first colon it names the host, behind a user and an `@` if there is one, and
/// behind the colon the path. The parts that are there may not be empty, and the first that
/// is says what is missing. Any other text is a local path, as it stands.
pub proof fn lemma_endpoints_are_told_apart(text: Seq<char>, colon: int, at: int)
    ensures
        (forall|c: int| !host_ends_at(text, c)) <==> place_named(text) == Ok::<Place, Misspelling>(
            Place::Local { path: text },
        ),
        host_ends_at(text, colon) && (forall|i: int| 0 <= i < colon ==> #[trigger] text[i] != '@')
            ==> place_named(text) == if colon == 0 {
            Err::<Place, Misspelling>(Misspelling::MissingRemoteHost { spec: text })
        } else if colon + 1 == text.len() {
            Err(Misspelling::MissingRemotePath { spec: text })
        } else {
            Ok(
                Place::Remote {
                    user: None,
                    host: text.subrange(0, colon),
                    path: text.subrange(colon + 1, text.len() as int),
                },
            )
        },
        host_ends_at(text, colon) && 0 <= at < colon && text[at] == '@' && (forall|i: int|
            0 <= i < at ==> #[trigger] text[i] != '@') ==> place_named(text) == if at == 0 {
            Err::<Place, Misspelling>(Misspelling::MissingRemoteUser { spec: text })
        } else if at + 1 == colon {
            Err(Misspelling::MissingRemoteHost { spec: text })
        } else if colon + 1 == text.len() {
            Err(Misspelling::MissingRemotePath { spec: text })
        } else {
            Ok(
                Place::Remote {
                    user: Some(text.subrange(0, at)),
                    host: text.subrange(at + 1, colon),
                    path: text.subrange(colon + 1, text.len() as int),
                },
            )
        },
{
    crate::text::lemma_first_at(text, ':', 0);
    crate::text::lemma_first_at(text, '/', 0);
    let first = crate::text::first_at(text, ':', 0);
    if let Some(c) = host_end(text) {
        assert(host_ends_at(text, c));
        let prefix = text.take(c);
        crate::text::lemma_first_at(prefix, '@', 0);
    } else {
        assert forall|c: int| !host_ends_at(text, c) by {
            if host_ends_at(text, c) {
                let slash = crate::text::first_at(text, '/', 0);
                assert(first is Some);
                if first->0 != c {
                    if first->0 < c {
                        assert(text[first->0] != ':');
                    } else {
                        assert(text[c] != ':');
                    }
                }
                assert(slash is Some && slash->0 < c);
                assert(text[slash->0] != '/');
            }
        }
    }
    if host_ends_at(text, colon) {
        assert(first == Some(colon)) by {
            if first is Some && first->0 < colon {
                assert(text[first->0] != ':');
            }
        }
        if let Some(slash) = crate::text::first_at(text, '/', 0) {
            if slash < colon {
                assert(text[slash] != '/');
            }
        }
        assert(host_end(text) == Some(colon));
        let prefix = text.take(colon);
        let found = crate::text::first_at(prefix, '@', 0);
        assert(prefix =~= text.subrange(0, colon));
        assert(text.skip(colon + 1) =~= text.subrange(colon + 1, text.len() as int));
        if forall|i: int| 0 <= i < colon ==> #[trigger] text[i] != '@' {
            if found is Some {
                assert(text[found->0] == '@');
            }
        }
        if 0 <= at < colon && text[at] == '@' && (forall|i: int|
            0 <= i < at ==> #[trigger] text[i] != '@') {
            assert(prefix[at] == '@');
            if found is Some && found->0 < at {
                assert(text[found->0] != '@');
            }
            assert(found == Some(at));
            assert(prefix.take(at) =~= text.subrange(0, at));
            assert(prefix.skip(at + 1) =~= text.subrange(at + 1, colon));
        }
    }
}

/// A remote endpoint in writing is read back: `user@host:path` or `host:path`, where no
/// colon or slash stands in front of the path, and no `@` in the user.
pub proof fn lemma_remote_endpoints_round_trip(
    user: Option<Seq<char>>,
    host: Seq<char>,
    path: Seq<char>,
)
    requires
        host.len() > 0,
        path.len() > 0,
        user matches Some(name) ==> name.len() > 0 && forall|i: int|
            0 <= i < name.len() ==> #[trigger] name[i] != '@' && name[i] != ':' && name[i] != '/',
        forall|i: int| 0 <= i < host.len() ==> #[trigger] host[i] != ':' && host[i] != '/',
        user is None ==> forall|i: int| 0 <= i < host.len() ==> #[trigger] host[i] != '@',
    ensures
        place_named(
            match user {
                Some(name) => name + seq!['@'] + host + seq![':'] + path,
                None => host + seq![':'] + path,
            },
        ) == Ok::<Place, Misspelling>(Place::Remote { user, host, path }),
{
    match user {
        Some(name) => {
            let text = name + seq!['@'] + host + seq![':'] + path;
            let at = name.len() as int;
            let colon = at + 1 + host.len();
            assert forall|i: int| 0 <= i < colon implies #[trigger] text[i] != ':' && text[i]
                != '/' by {
                if i < at {
                    assert(text[i] == name[i]);
                } else if i > at {
                    assert(text[i] == host[i - at - 1]);
                }
            }
            assert forall|i: int| 0 <= i < at implies #[trigger] text[i] != '@' by {
                assert(text[i] == name[i]);
            }
            assert(host_ends_at(text, colon));
            lemma_endpoints_are_told_apart(text, colon, at);
            assert(text.subrange(0, at) =~= name);
            assert(text.subrange(at + 1, colon) =~= host);
            assert(text.subrange(colon + 1, text.len() as int) =~= path);
        },
        None => {
            let text = host + seq![':'] + path;
            let colon = host.len() as int;
            assert forall|i: int| 0 <= i < colon implies #[trigger] text[i] != ':' && text[i]
                != '/' && text[i] != '@' by {
                assert(text[i] == host[i]);
            }
            assert(host_ends_at(text, colon));
            lemma_endpoints_are_told_apart(text, colon, 0);
            assert(text.subrange(0, colon) =~= host);
            assert(text.subrange(colon + 1, text.len() as int) =~= path);
        },
    }
}

} // verus!
