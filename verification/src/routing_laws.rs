//! What holds of the routes: which URL and which host a path leads to, what is
//! made of a token request and of a challenge, which account a URL logs in
//! with, and what an access list covers. Registries are tried in their order.
use crate::access::{covers, covers_plainly, is_ordinary};
use crate::config::{inserted, lemma_slot_at, lookup, MappingView, RegistryMapping};
use crate::docker::{
    api_rest, auth_url, behind_domain, host_of, is_api_path, is_token_path, keywords_of,
    names_registry, pair_value, query_of, query_param, redirected_by, redirected_challenge,
    registry_of_path, registry_of_service, stripped_param, stripped_query, takes_over_tokens,
    url_of, with_redirected_challenge, without_slashes,
};
use crate::engine::{
    account_at, account_for, are_credentials_of, has_account_at, last_colon, only_digits,
    url_authority, url_host, without_port, Credentials,
};
use crate::headers::first_text;
use crate::laws::{
    law_one_registry_redirects, law_other_challenges_stay, law_other_queries_stay,
    law_scope_loses_domain,
};
use crate::pattern::{
    regex_compiles, regex_matches, wildcard_accepts, wildcard_body, wildcard_pattern,
    wildcard_piece,
};
use crate::text::{after, before, joined, lemma_position, occurs, pieces, position, replaced};
use crate::text_laws::{
    are_digits, law_joining_in_steps, law_parting_at_separator, law_pieces_at_separator,
};
use vstd::prelude::*;

verus! {

/// A mapping is seen with the settings that it holds, each in its place.
pub proof fn law_mapping_is_seen_whole(mapping: RegistryMapping)
    ensures
        mapping@.enabled == mapping.enabled,
        mapping@.upstream == mapping.upstream@,
        mapping@.auth_host == mapping.auth_host@,
        mapping@.username == mapping.username@,
        mapping@.password == mapping.password@,
{
}

/// The mapping of a domain is that of its first entry, and a domain without an
/// entry has none.
pub proof fn law_lookup(entries: Seq<(Seq<char>, MappingView)>, domain: Seq<char>, i: int)
    requires
        0 <= i <= entries.len(),
        forall|j: int| 0 <= j < i ==> (#[trigger] entries[j]).0 != domain,
        i < entries.len() ==> entries[i].0 == domain,
    ensures
        i < entries.len() ==> lookup(entries, domain) == Some(entries[i].1),
        i == entries.len() ==> lookup(entries, domain) is None,
{
    lemma_slot_at(entries, domain, i);
}

/// A mapping takes the place of the domain's earlier one, or comes last; every
/// other entry stays where it is.
pub proof fn law_insertion(
    entries: Seq<(Seq<char>, MappingView)>,
    domain: Seq<char>,
    mapping: MappingView,
    i: int,
)
    requires
        0 <= i <= entries.len(),
        forall|j: int| 0 <= j < i ==> (#[trigger] entries[j]).0 != domain,
        i < entries.len() ==> entries[i].0 == domain,
    ensures
        i < entries.len() ==> inserted(entries, domain, mapping) == entries.take(i) + seq![
            (domain, mapping),
        ] + entries.skip(i + 1),
        i == entries.len() ==> inserted(entries, domain, mapping) == entries + seq![
            (domain, mapping),
        ],
{
    lemma_slot_at(entries, domain, i);
    let next = inserted(entries, domain, mapping);
    if i < entries.len() {
        assert(next =~= entries.take(i) + seq![(domain, mapping)] + entries.skip(i + 1));
    } else {
        assert(next =~= entries + seq![(domain, mapping)]);
    }
}

/// The provider takes the paths that begin with `v2/` or with `token`.
pub proof fn law_provider_paths(path: Seq<char>)
    ensures
        is_api_path(path) <==> path.len() >= 3 && path[0] == 'v' && path[1] == '2' && path[2]
            == '/',
        is_token_path(path) <==> path.len() >= 5 && path[0] == 't' && path[1] == 'o' && path[2]
            == 'k' && path[3] == 'e' && path[4] == 'n',
{
    reveal_strlit("v2/");
    reveal_strlit("token");
    if path.len() >= 3 {
        let p = path.subrange(0, 3);
        assert(p[0] == path[0] && p[1] == path[1] && p[2] == path[2]);
        if path[0] == 'v' && path[1] == '2' && path[2] == '/' {
            assert(p =~= "v2/"@);
        }
    }
    if path.len() >= 5 {
        let p = path.subrange(0, 5);
        assert(p[0] == path[0] && p[1] == path[1] && p[2] == path[2] && p[3] == path[3] && p[4]
            == path[4]);
        if path[0] == 't' && path[1] == 'o' && path[2] == 'k' && path[3] == 'e' && path[4] == 'n' {
            assert(p =~= "token"@);
        }
    }
}

/// A path is the API path of what stands behind `v2/`.
proof fn lemma_api_path(rest: Seq<char>)
    ensures
        is_api_path("v2/"@ + rest),
        api_rest("v2/"@ + rest) == rest,
        !is_token_path("v2/"@ + rest),
{
    reveal_strlit("v2/");
    let path = "v2/"@ + rest;
    law_provider_paths(path);
    assert(api_rest(path) =~= rest);
}

/// Whether a registry is asked for what stands behind `v2/`.
proof fn lemma_names_registry(domain: Seq<char>, rest: Seq<char>)
    ensures
        names_registry(domain, rest) <==> domain == rest || (domain + "/"@).is_prefix_of(rest),
{
    reveal_strlit("/");
    assert(domain + "/"@ =~= domain.push('/'));
}

/// The first registry that a path names is the one with none before it.
proof fn lemma_registry_of_path_at(
    registries: Seq<(Seq<char>, MappingView)>,
    rest: Seq<char>,
    i: int,
)
    requires
        0 <= i <= registries.len(),
        forall|j: int|
            0 <= j < i ==> !((#[trigger] registries[j]).1.enabled && names_registry(
                registries[j].0,
                rest,
            )),
        i < registries.len() ==> registries[i].1.enabled && names_registry(registries[i].0, rest),
    ensures
        registry_of_path(registries, rest) == if i < registries.len() {
            Some(registries[i])
        } else {
            None
        },
    decreases registries.len(),
{
    if i > 0 {
        let tail = registries.drop_first();
        assert(!(registries[0].1.enabled && names_registry(registries[0].0, rest)));
        assert forall|j: int| 0 <= j < i - 1 implies !((#[trigger] tail[j]).1.enabled
            && names_registry(tail[j].0, rest)) by {
            assert(tail[j] == registries[j + 1]);
        }
        lemma_registry_of_path_at(tail, rest, i - 1);
    }
}

/// A path that names a registry, and none before it, leads to the registry's
/// upstream host with everything that stands behind the domain, unchanged.
pub proof fn law_registry_url(
    registries: Seq<(Seq<char>, MappingView)>,
    i: int,
    t: Seq<char>,
)
    requires
        0 <= i < registries.len(),
        registries[i].1.enabled,
        forall|j: int|
            0 <= j < i && (#[trigger] registries[j]).1.enabled ==> registries[j].0
                != registries[i].0 + "/"@ + t && !(registries[j].0 + "/"@).is_prefix_of(
                registries[i].0 + "/"@ + t,
            ),
    ensures
        url_of(registries, "v2/"@ + (registries[i].0 + "/"@ + t)) == "https://"@
            + registries[i].1.upstream + "/v2/"@ + t,
        host_of(registries, "v2/"@ + (registries[i].0 + "/"@ + t)) == Some(
            registries[i].1.upstream,
        ),
{
    let domain = registries[i].0;
    let rest = domain + "/"@ + t;
    reveal_strlit("/");
    lemma_api_path(rest);
    assert(rest.subrange(0, domain.len() as int + 1) =~= domain + "/"@);
    lemma_names_registry(domain, rest);
    assert forall|j: int| 0 <= j < i implies !((#[trigger] registries[j]).1.enabled
        && names_registry(registries[j].0, rest)) by {
        lemma_names_registry(registries[j].0, rest);
    }
    lemma_registry_of_path_at(registries, rest, i);
    assert(behind_domain(domain, rest) =~= t);
}

/// A path that is a registry's domain, and names none before it, leads to the
/// root of the registry's API.
pub proof fn law_registry_root_url(registries: Seq<(Seq<char>, MappingView)>, i: int)
    requires
        0 <= i < registries.len(),
        registries[i].1.enabled,
        forall|j: int|
            0 <= j < i && (#[trigger] registries[j]).1.enabled ==> registries[j].0
                != registries[i].0 && !(registries[j].0 + "/"@).is_prefix_of(registries[i].0),
    ensures
        url_of(registries, "v2/"@ + registries[i].0) == "https://"@ + registries[i].1.upstream
            + "/v2/"@,
        host_of(registries, "v2/"@ + registries[i].0) == Some(registries[i].1.upstream),
{
    let rest = registries[i].0;
    lemma_api_path(rest);
    assert forall|j: int| 0 <= j < i implies !((#[trigger] registries[j]).1.enabled
        && names_registry(registries[j].0, rest)) by {
        lemma_names_registry(registries[j].0, rest);
    }
    lemma_registry_of_path_at(registries, rest, i);
    let root = "https://"@ + registries[i].1.upstream + "/v2/"@;
    assert(root + behind_domain(rest, rest) =~= root);
}

/// A registry whose domain has no slash, and is neither another registry's nor
/// the beginning of one up to a slash, is reached by its domain, in whatever
/// order the registries stand.
pub proof fn law_plain_domain_url(
    registries: Seq<(Seq<char>, MappingView)>,
    i: int,
    t: Seq<char>,
)
    requires
        0 <= i < registries.len(),
        registries[i].1.enabled,
        !registries[i].0.contains('/'),
        forall|j: int|
            0 <= j < registries.len() && j != i ==> (#[trigger] registries[j]).0
                != registries[i].0 && !(registries[i].0 + "/"@).is_prefix_of(registries[j].0),
    ensures
        url_of(registries, "v2/"@ + (registries[i].0 + "/"@ + t)) == "https://"@
            + registries[i].1.upstream + "/v2/"@ + t,
        url_of(registries, "v2/"@ + registries[i].0) == "https://"@ + registries[i].1.upstream
            + "/v2/"@,
        host_of(registries, "v2/"@ + (registries[i].0 + "/"@ + t)) == Some(
            registries[i].1.upstream,
        ),
        host_of(registries, "v2/"@ + registries[i].0) == Some(registries[i].1.upstream),
{
    reveal_strlit("/");
    let domain = registries[i].0;
    let rest = domain + "/"@ + t;
    assert forall|j: int| 0 <= j < i implies (#[trigger] registries[j]).0 != rest && !(
    registries[j].0 + "/"@).is_prefix_of(rest) && !(registries[j].0 + "/"@).is_prefix_of(
        domain,
    ) by {
        let other = registries[j].0;
        let named = other + "/"@;
        let n = other.len() as int;
        assert(named[n] == '/');
        assert(rest.subrange(0, domain.len() as int + 1) =~= domain + "/"@);
        if named.is_prefix_of(rest) {
            assert(rest.subrange(0, n + 1)[n] == '/');
            if n < domain.len() {
                assert(domain[n] == '/');
                assert(domain.contains('/'));
            } else {
                assert forall|k: int| 0 <= k < domain.len() + 1 && k < n implies other[k]
                    == rest[k] by {
                    assert(rest.subrange(0, n + 1)[k] == named[k]);
                }
                if n == domain.len() {
                    assert(other =~= domain);
                } else {
                    assert(other.subrange(0, domain.len() as int + 1) =~= domain + "/"@);
                }
            }
        }
        if named.is_prefix_of(domain) {
            assert(domain.subrange(0, n + 1)[n] == '/');
            assert(domain[n] == '/');
            assert(domain.contains('/'));
        }
    }
    law_registry_url(registries, i, t);
    law_registry_root_url(registries, i);
}

/// A path that names no registry leads to the upstream host of `docker.io`, with
/// everything that stands behind `v2/`; where there is no such registry it leads
/// to Docker Hub, and the provider names no host for it.
pub proof fn law_unnamed_url(
    registries: Seq<(Seq<char>, MappingView)>,
    rest: Seq<char>,
    hub: int,
)
    requires
        forall|j: int|
            0 <= j < registries.len() && (#[trigger] registries[j]).1.enabled ==> registries[j].0
                != rest && !(registries[j].0 + "/"@).is_prefix_of(rest),
        0 <= hub <= registries.len(),
        forall|j: int| 0 <= j < hub ==> (#[trigger] registries[j]).0 != "docker.io"@,
        hub < registries.len() ==> registries[hub].0 == "docker.io"@,
    ensures
        hub < registries.len() ==> url_of(registries, "v2/"@ + rest) == "https://"@
            + registries[hub].1.upstream + "/v2/"@ + rest && host_of(registries, "v2/"@ + rest)
            == Some(registries[hub].1.upstream),
        hub == registries.len() ==> url_of(registries, "v2/"@ + rest)
            == "https://registry-1.docker.io/v2/"@ + rest && host_of(registries, "v2/"@ + rest)
            is None,
{
    lemma_api_path(rest);
    assert forall|j: int| 0 <= j < registries.len() implies !((#[trigger] registries[j]).1.enabled
        && names_registry(registries[j].0, rest)) by {
        lemma_names_registry(registries[j].0, rest);
    }
    lemma_registry_of_path_at(registries, rest, registries.len() as int);
    law_lookup(registries, "docker.io"@, hub);
    reveal_strlit("https://registry-1.docker.io/v2/");
    reveal_strlit("registry-1.docker.io");
    reveal_strlit("https://");
    reveal_strlit("/v2/");
    assert("https://"@ + "registry-1.docker.io"@ + "/v2/"@ =~= "https://registry-1.docker.io/v2/"@);
}

/// The query of a path is all that stands behind its first question mark.
pub proof fn law_query(front: Seq<char>, query: Seq<char>)
    requires
        !front.contains('?'),
    ensures
        query_of(front + "?"@ + query) == query,
        query_of(front) == Seq::<char>::empty(),
{
    reveal_strlit("?");
    assert("?"@ =~= seq!['?']);
    let path = front + seq!['?'] + query;
    assert forall|j: int| 0 <= j < front.len() implies front[j] != '?' by {
        assert(front.contains(front[j]));
    }
    law_parting_at_separator(front, '?', query);
    assert(path[front.len() as int] == '?');
    assert(path.contains('?'));
}

/// Whether a pair is one of a key.
proof fn lemma_pair(pair: Seq<char>, key: Seq<char>)
    requires
        !key.contains('='),
    ensures
        (pair.contains('=') && before(pair, '=') == key) <==> (key + "="@).is_prefix_of(pair),
        (key + "="@).is_prefix_of(pair) ==> after(pair, '=') == pair.skip(key.len() as int + 1),
{
    reveal_strlit("=");
    assert("="@ =~= seq!['=']);
    let n = key.len() as int;
    let front = key + "="@;
    lemma_position(pair, '=');
    if front.is_prefix_of(pair) {
        let rest = pair.skip(n + 1);
        assert(pair.subrange(0, n + 1) =~= front);
        assert(pair =~= pair.subrange(0, n + 1) + rest);
        assert(pair =~= key + seq!['='] + rest);
        assert forall|j: int| 0 <= j < n implies key[j] != '=' by {
            assert(key.contains(key[j]));
        }
        law_parting_at_separator(key, '=', rest);
        assert(pair[n] == '=');
        assert(pair.contains('='));
    }
    if pair.contains('=') && before(pair, '=') == key {
        assert(position(pair, '=') == n);
        assert(pair.subrange(0, n + 1) =~= front);
    }
}

/// The value of a key is that of its first pair.
proof fn lemma_pair_value_at(pairs: Seq<Seq<char>>, key: Seq<char>, i: int)
    requires
        !key.contains('='),
        0 <= i <= pairs.len(),
        forall|j: int| 0 <= j < i ==> !(key + "="@).is_prefix_of(#[trigger] pairs[j]),
        i < pairs.len() ==> (key + "="@).is_prefix_of(pairs[i]),
    ensures
        pair_value(pairs, key) == if i < pairs.len() {
            Some(pairs[i].skip(key.len() as int + 1))
        } else {
            None
        },
    decreases pairs.len(),
{
    if pairs.len() > 0 {
        lemma_pair(pairs[0], key);
        if i > 0 {
            let tail = pairs.drop_first();
            assert(!(key + "="@).is_prefix_of(pairs[0]));
            assert forall|j: int| 0 <= j < i - 1 implies !(key + "="@).is_prefix_of(
                #[trigger] tail[j],
            ) by {
                assert(tail[j] == pairs[j + 1]);
            }
            lemma_pair_value_at(tail, key, i - 1);
        }
    }
}

/// The value of a parameter is what stands behind the key and the equals sign in
/// the first part of the query that begins with them.
pub proof fn law_query_param(query: Seq<char>, key: Seq<char>, i: int)
    requires
        !key.contains('='),
        0 <= i <= pieces(query, '&').len(),
        forall|j: int|
            0 <= j < i ==> !(key + "="@).is_prefix_of(#[trigger] pieces(query, '&')[j]),
        i < pieces(query, '&').len() ==> (key + "="@).is_prefix_of(pieces(query, '&')[i]),
    ensures
        i < pieces(query, '&').len() ==> query_param(query, key) == Some(
            pieces(query, '&')[i].skip(key.len() as int + 1),
        ),
        i == pieces(query, '&').len() ==> query_param(query, key) is None,
{
    lemma_pair_value_at(pieces(query, '&'), key, i);
}

/// A query of one parameter, and a query that begins with one.
pub proof fn law_leading_param(key: Seq<char>, value: Seq<char>, more: Seq<char>)
    requires
        !key.contains('='),
        !key.contains('&'),
        !value.contains('&'),
    ensures
        query_param(key + "="@ + value, key) == Some(value),
        query_param(key + "="@ + value + "&"@ + more, key) == Some(value),
{
    reveal_strlit("=");
    reveal_strlit("&");
    assert("&"@ =~= seq!['&']);
    let first = key + "="@ + value;
    assert forall|j: int| 0 <= j < first.len() implies first[j] != '&' by {
        if j < key.len() {
            assert(first[j] == key[j]);
            assert(key.contains(key[j]));
        } else if j > key.len() {
            assert(first[j] == value[j - key.len() - 1]);
            assert(value.contains(value[j - key.len() - 1]));
        }
    }
    law_pieces_at_separator(first, '&', more);
    assert(first.subrange(0, key.len() as int + 1) =~= key + "="@);
    assert(first.skip(key.len() as int + 1) =~= value);
    law_query_param(first, key, 0);
    law_query_param(first + "&"@ + more, key, 0);
}

/// An empty query has no parameters.
proof fn lemma_no_params(key: Seq<char>)
    ensures
        query_param(Seq::empty(), key) is None,
{
    let pairs = pieces(Seq::<char>::empty(), '&');
    assert(pairs =~= seq![Seq::<char>::empty()]);
    assert(!pairs[0].contains('='));
    assert(pair_value(pairs.drop_first(), key) is None);
}

/// The first registry of a service is the one with none before it.
proof fn lemma_registry_of_service_at(
    registries: Seq<(Seq<char>, MappingView)>,
    service: Seq<char>,
    i: int,
)
    requires
        0 <= i <= registries.len(),
        forall|j: int|
            0 <= j < i ==> !((#[trigger] registries[j]).1.enabled
                && registries[j].1.upstream.is_prefix_of(service)),
        i < registries.len() ==> registries[i].1.enabled && registries[i].1.upstream.is_prefix_of(
            service,
        ),
    ensures
        registry_of_service(registries, service) == if i < registries.len() {
            Some(registries[i])
        } else {
            None
        },
    decreases registries.len(),
{
    if i > 0 {
        let tail = registries.drop_first();
        assert(!(registries[0].1.enabled && registries[0].1.upstream.is_prefix_of(service)));
        assert forall|j: int| 0 <= j < i - 1 implies !((#[trigger] tail[j]).1.enabled
            && tail[j].1.upstream.is_prefix_of(service)) by {
            assert(tail[j] == registries[j + 1]);
        }
        lemma_registry_of_service_at(tail, service, i - 1);
    }
}

/// A path that begins with `token` is one of the token endpoint.
proof fn lemma_token_path(front: Seq<char>, tail: Seq<char>)
    requires
        "token"@.is_prefix_of(front),
    ensures
        is_token_path(front + tail),
        !is_api_path(front + tail),
{
    reveal_strlit("token");
    let path = front + tail;
    assert(path.subrange(0, 5) =~= front.subrange(0, 5));
    assert(path[0] == front.subrange(0, 5)[0]);
    law_provider_paths(path);
}

/// A token request whose service begins with the upstream host of an enabled
/// registry, and with none before it, leads to the registry's token endpoint
/// with its query, in which only scopes lose the registry's domain.
pub proof fn law_token_request_url(
    registries: Seq<(Seq<char>, MappingView)>,
    front: Seq<char>,
    query: Seq<char>,
    service: Seq<char>,
    i: int,
)
    requires
        "token"@.is_prefix_of(front),
        !front.contains('?'),
        query_param(query, "service"@) == Some(service),
        0 <= i < registries.len(),
        registries[i].1.enabled,
        registries[i].1.upstream.is_prefix_of(service),
        forall|j: int|
            0 <= j < i && (#[trigger] registries[j]).1.enabled
                ==> !registries[j].1.upstream.is_prefix_of(service),
    ensures
        url_of(registries, front + "?"@ + query) == "https://"@ + registries[i].1.auth_host + "?"@
            + stripped_query(query, registries[i].0),
        host_of(registries, front + "?"@ + query) == Some(before(registries[i].1.auth_host, '/')),
{
    assert(front + "?"@ + query =~= front + ("?"@ + query));
    lemma_token_path(front, "?"@ + query);
    law_query(front, query);
    lemma_registry_of_service_at(registries, service, i);
    if query.len() == 0 {
        assert(query =~= Seq::empty());
        lemma_no_params("service"@);
    }
}

/// A token request without a service, or for a service of no enabled registry,
/// leads to the token endpoint of Docker Hub with its query as it is, and the
/// provider names no host for it.
pub proof fn law_other_token_request_url(
    registries: Seq<(Seq<char>, MappingView)>,
    front: Seq<char>,
    query: Seq<char>,
)
    requires
        "token"@.is_prefix_of(front),
        !front.contains('?'),
        query_param(query, "service"@) matches Some(service) ==> forall|j: int|
            0 <= j < registries.len() && (#[trigger] registries[j]).1.enabled
                ==> !registries[j].1.upstream.is_prefix_of(service),
    ensures
        query.len() > 0 ==> url_of(registries, front + "?"@ + query)
            == "https://auth.docker.io/token?"@ + query,
        query.len() == 0 ==> url_of(registries, front + "?"@ + query)
            == "https://auth.docker.io/token"@,
        host_of(registries, front + "?"@ + query) is None,
        url_of(registries, front) == "https://auth.docker.io/token"@,
        host_of(registries, front) is None,
{
    assert(front + "?"@ + query =~= front + ("?"@ + query));
    lemma_token_path(front, "?"@ + query);
    lemma_token_path(front, Seq::empty());
    assert(front + Seq::<char>::empty() =~= front);
    law_query(front, query);
    lemma_no_params("service"@);
    match query_param(query, "service"@) {
        Some(service) => {
            lemma_registry_of_service_at(registries, service, registries.len() as int);
        },
        None => {},
    }
    reveal_strlit("https://auth.docker.io/token?");
    reveal_strlit("https://auth.docker.io/token");
    reveal_strlit("https://");
    reveal_strlit("auth.docker.io/token");
    reveal_strlit("?");
    assert("https://"@ + "auth.docker.io/token"@ =~= "https://auth.docker.io/token"@);
    assert("https://auth.docker.io/token"@ + "?"@ =~= "https://auth.docker.io/token?"@);
}

/// A parameter stays as it is unless it is a scope whose repository stands behind
/// the registry's domain and a slash or a colon.
pub proof fn law_other_params_stay(param: Seq<char>, domain: Seq<char>)
    requires
        !("scope=repository:"@ + domain + "/"@).is_prefix_of(param),
        !("scope=repository:"@ + domain + ":"@).is_prefix_of(param),
    ensures
        stripped_param(param, domain) == param,
{
    reveal_strlit("scope=repository:");
    reveal_strlit("repository:");
    reveal_strlit("scope");
    reveal_strlit("/");
    reveal_strlit(":");
    let prefix = "repository:"@ + domain;
    let value = after(param, '=');
    let rest = value.skip(prefix.len() as int);
    if stripped_param(param, domain) != param {
        lemma_position(param, '=');
        assert(before(param, '=') == "scope"@);
        assert(position(param, '=') == 5);
        assert(value.subrange(0, prefix.len() as int) =~= prefix);
        let n = 17 + domain.len() as int;
        assert(param.len() > n);
        assert(param[n] == rest[0]);
        let scope = "scope=repository:"@;
        assert forall|k: int| 0 <= k < n implies param[k] == (scope + domain)[k] by {
            if k < 5 {
                assert(param[k] == before(param, '=')[k]);
                assert("scope"@[k] == scope[k]) by {
                    assert(k == 0 || k == 1 || k == 2 || k == 3 || k == 4);
                }
            } else if k > 5 {
                assert(param[k] == value[k - 6]);
                assert(value[k - 6] == prefix[k - 6]);
                if k < 17 {
                    assert("repository:"@[k - 6] == scope[k]) by {
                        assert(k == 6 || k == 7 || k == 8 || k == 9 || k == 10 || k == 11 || k
                            == 12 || k == 13 || k == 14 || k == 15 || k == 16);
                    }
                }
            }
        }
        let sep = if rest[0] == '/' {
            "/"@
        } else {
            ":"@
        };
        assert(param.subrange(0, n + 1) =~= scope + domain + sep);
        assert((scope + domain + sep).is_prefix_of(param));
    }
}

/// A scope of a repository whose name does not begin with the domain stays.
pub proof fn law_foreign_scopes_stay(domain: Seq<char>, name: Seq<char>)
    requires
        !domain.is_prefix_of(name),
    ensures
        stripped_param("scope=repository:"@ + name, domain) == "scope=repository:"@ + name,
{
    let scope = "scope=repository:"@;
    let param = scope + name;
    let n = scope.len() as int;
    let d = domain.len() as int;
    reveal_strlit("/");
    reveal_strlit(":");
    assert forall|sep: Seq<char>| sep.len() == 1 implies !(#[trigger] (scope + domain
        + sep)).is_prefix_of(param) by {
        let whole = scope + domain + sep;
        if whole.is_prefix_of(param) {
            assert forall|k: int| 0 <= k < d implies name[k] == domain[k] by {
                assert(param.subrange(0, whole.len() as int)[n + k] == whole[n + k]);
            }
            assert(name.subrange(0, d) =~= domain);
        }
    }
    assert("/"@.len() == 1 && ":"@.len() == 1);
    assert(!(scope + domain + "/"@).is_prefix_of(param));
    assert(!(scope + domain + ":"@).is_prefix_of(param));
    law_other_params_stay(param, domain);
}

/// A query stays as it is where none of its parameters is a scope whose
/// repository stands behind the registry's domain.
pub proof fn law_foreign_queries_stay(query: Seq<char>, domain: Seq<char>)
    requires
        forall|i: int|
            0 <= i < pieces(query, '&').len() ==> !("scope=repository:"@ + domain
                + "/"@).is_prefix_of(#[trigger] pieces(query, '&')[i]) && !("scope=repository:"@
                + domain + ":"@).is_prefix_of(pieces(query, '&')[i]),
    ensures
        stripped_query(query, domain) == query,
{
    assert forall|i: int| 0 <= i < pieces(query, '&').len() implies stripped_param(
        #[trigger] pieces(query, '&')[i],
        domain,
    ) == pieces(query, '&')[i] by {
        law_other_params_stay(pieces(query, '&')[i], domain);
    }
    law_other_queries_stay(query, domain);
}

/// In a query that begins with a scope of the registry's, the scope loses the
/// domain, and the rest is stripped for itself.
pub proof fn law_leading_scope(domain: Seq<char>, name: Seq<char>, more: Seq<char>)
    requires
        !domain.contains('&'),
        !name.contains('&'),
    ensures
        stripped_query("scope=repository:"@ + domain + "/"@ + name, domain)
            == "scope=repository:"@ + name,
        stripped_query("scope=repository:"@ + domain + "/"@ + name + "&"@ + more, domain)
            == "scope=repository:"@ + name + "&"@ + stripped_query(more, domain),
{
    reveal_strlit("scope=repository:");
    reveal_strlit("/");
    reveal_strlit("&");
    assert("&"@ =~= seq!['&']);
    let scope = "scope=repository:"@;
    let param = scope + domain + "/"@ + name;
    let short = scope + name;
    let strip = |p: Seq<char>| stripped_param(p, domain);
    assert forall|j: int| 0 <= j < param.len() implies param[j] != '&' by {
        if j < 17 {
            assert(param[j] == scope[j]);
        } else if j < 17 + domain.len() {
            assert(param[j] == domain[j - 17]);
            assert(domain.contains(domain[j - 17]));
        } else if j > 17 + domain.len() {
            let k = j - 18 - domain.len();
            assert(param[j] == name[k]);
            assert(name.contains(name[k]));
        }
    }
    law_pieces_at_separator(param, '&', more);
    law_scope_loses_domain(domain, name);
    assert(seq![param].map_values(strip) =~= seq![short]);
    assert(pieces(param, '&').map_values(strip) =~= seq![short]);
    law_joining_in_steps(Seq::empty(), Seq::empty(), short, "&"@);
    let rest = pieces(more, '&').map_values(strip);
    assert(pieces(param + "&"@ + more, '&').map_values(strip) =~= seq![short] + rest);
    assert(rest.len() > 0);
    law_joining_in_steps(seq![short], rest, short, "&"@);
    assert(stripped_query(param, domain) == joined(pieces(param, '&').map_values(strip), "&"@));
    assert(stripped_query(more, domain) == joined(rest, "&"@));
    assert(stripped_query(param + "&"@ + more, domain) == joined(
        pieces(param + "&"@ + more, '&').map_values(strip),
        "&"@,
    ));
}

/// Slashes in front of a text that begins with none go.
proof fn lemma_leading_slashes(slashes: Seq<char>, s: Seq<char>)
    requires
        forall|j: int| 0 <= j < slashes.len() ==> slashes[j] == '/',
        s.len() > 0 ==> s[0] != '/',
    ensures
        without_slashes(slashes + s) == s,
    decreases slashes.len(),
{
    let all = slashes + s;
    if slashes.len() > 0 {
        assert(all[0] == '/');
        assert(all.drop_first() =~= slashes.drop_first() + s);
        lemma_leading_slashes(slashes.drop_first(), s);
    } else {
        assert(all =~= s);
    }
}

/// The keywords of an API path are its first two segments, whatever slashes
/// stand in front of them and whatever follows them.
pub proof fn law_keywords(slashes: Seq<char>, a: Seq<char>, b: Seq<char>, more: Seq<char>)
    requires
        forall|j: int| 0 <= j < slashes.len() ==> slashes[j] == '/',
        a.len() > 0,
        !a.contains('/'),
        !b.contains('/'),
        more.len() > 0 ==> more[0] == '/',
    ensures
        keywords_of("v2/"@ + (slashes + (a + "/"@ + b + more))) == Some(seq![a, b]),
        keywords_of("v2/"@ + (slashes + a)) is None,
        keywords_of("v2/"@ + slashes) is None,
{
    reveal_strlit("/");
    assert("/"@ =~= seq!['/']);
    assert forall|j: int| 0 <= j < a.len() implies a[j] != '/' by {
        assert(a.contains(a[j]));
    }
    assert forall|j: int| 0 <= j < b.len() implies b[j] != '/' by {
        assert(b.contains(b[j]));
    }
    let s = a + "/"@ + b + more;
    lemma_api_path(slashes + s);
    assert(s[0] == a[0]);
    lemma_leading_slashes(slashes, s);
    assert(s =~= a + seq!['/'] + (b + more));
    law_pieces_at_separator(a, '/', b + more);
    if more.len() > 0 {
        assert(b + more =~= b + seq!['/'] + more.skip(1));
        law_pieces_at_separator(b, '/', more.skip(1));
    } else {
        assert(b + more =~= b);
        law_pieces_at_separator(b, '/', more);
    }
    assert(pieces(s, '/').take(2) =~= seq![a, b]);
    lemma_api_path(slashes + a);
    lemma_leading_slashes(slashes, a);
    lemma_api_path(slashes);
    assert(slashes + Seq::<char>::empty() =~= slashes);
    lemma_leading_slashes(slashes, Seq::empty());
    assert(pieces(Seq::<char>::empty(), '/').len() == 1);
}

/// Paths that are not of the API have no keywords.
pub proof fn law_other_paths_have_no_keywords(path: Seq<char>)
    requires
        !("v2/"@.is_prefix_of(path)),
    ensures
        keywords_of(path) is None,
{
}

/// The token endpoint of an enabled registry is replaced by the proxy's own in a
/// challenge where the endpoint is at another host than the registry or the proxy
/// has an account there, and only then.
pub proof fn law_token_endpoint_is_replaced(mapping: MappingView, challenge: Seq<char>)
    ensures
        mapping.enabled && before(mapping.auth_host, '/') != mapping.upstream ==> redirected_by(
            mapping,
            challenge,
        ) == replaced(challenge, "https://"@ + mapping.auth_host, "/token"@),
        mapping.enabled && mapping.username.len() > 0 ==> redirected_by(mapping, challenge)
            == replaced(challenge, "https://"@ + mapping.auth_host, "/token"@),
        !mapping.enabled ==> redirected_by(mapping, challenge) == challenge,
        before(mapping.auth_host, '/') == mapping.upstream && mapping.username.len() == 0
            ==> redirected_by(mapping, challenge) == challenge,
{
}

/// A challenge goes through the registries one after another.
pub proof fn law_challenge_passes_registries(
    a: Seq<(Seq<char>, MappingView)>,
    b: Seq<(Seq<char>, MappingView)>,
    entry: (Seq<char>, MappingView),
    challenge: Seq<char>,
)
    ensures
        redirected_challenge(Seq::empty(), challenge) == challenge,
        redirected_challenge(seq![entry], challenge) == redirected_by(entry.1, challenge),
        redirected_challenge(a + b, challenge) == redirected_challenge(
            b,
            redirected_challenge(a, challenge),
        ),
    decreases a.len(),
{
    assert(seq![entry].drop_first() =~= Seq::empty());
    assert(redirected_challenge(Seq::empty(), redirected_by(entry.1, challenge)) == redirected_by(
        entry.1,
        challenge,
    ));
    if a.len() == 0 {
        assert(a + b =~= b);
    } else {
        assert((a + b).drop_first() =~= a.drop_first() + b);
        law_challenge_passes_registries(
            a.drop_first(),
            b,
            entry,
            redirected_by(a[0].1, challenge),
        );
    }
}

/// A challenge that names the token endpoint of an enabled registry, which is at
/// another host than the registry or where the proxy has an account, and names no
/// other endpoint, names the proxy's own endpoint instead.
pub proof fn law_named_endpoint_is_replaced(
    registries: Seq<(Seq<char>, MappingView)>,
    k: int,
    challenge: Seq<char>,
)
    requires
        0 <= k < registries.len(),
        registries[k].1.enabled,
        before(registries[k].1.auth_host, '/') != registries[k].1.upstream
            || registries[k].1.username.len() > 0,
        forall|j: int|
            0 <= j < registries.len() && j != k ==> !occurs(
                challenge,
                "https://"@ + (#[trigger] registries[j]).1.auth_host,
            ) && !occurs(
                replaced(challenge, "https://"@ + registries[k].1.auth_host, "/token"@),
                "https://"@ + registries[j].1.auth_host,
            ),
    ensures
        redirected_challenge(registries, challenge) == replaced(
            challenge,
            "https://"@ + registries[k].1.auth_host,
            "/token"@,
        ),
{
    law_token_endpoint_is_replaced(registries[k].1, challenge);
    assert forall|j: int|
        0 <= j < registries.len() && j != k && takes_over_tokens(
            (#[trigger] registries[j]).1,
        ) implies !occurs(challenge, auth_url(registries[j].1)) && !occurs(
        redirected_by(registries[k].1, challenge),
        auth_url(registries[j].1),
    ) by {}
    law_one_registry_redirects(registries, k, challenge);
}

/// A challenge stays where every registry whose token endpoint it names is
/// disabled, or has its endpoint at the registry's own host and no account.
pub proof fn law_direct_endpoints_stay(
    registries: Seq<(Seq<char>, MappingView)>,
    challenge: Seq<char>,
)
    requires
        forall|j: int|
            0 <= j < registries.len() ==> {
                ||| !occurs(challenge, "https://"@ + (#[trigger] registries[j]).1.auth_host)
                ||| !registries[j].1.enabled
                ||| before(registries[j].1.auth_host, '/') == registries[j].1.upstream
                    && registries[j].1.username.len() == 0
            },
    ensures
        redirected_challenge(registries, challenge) == challenge,
{
    law_other_challenges_stay(registries, challenge);
}

/// An answer carries the rewritten challenge in the place of its first one, and
/// all else as it was; an answer without a readable challenge stays.
pub proof fn law_first_challenge_is_rewritten(
    contents: Map<Seq<char>, Seq<Seq<u8>>>,
    registries: Seq<(Seq<char>, MappingView)>,
    i: int,
)
    requires
        contents.contains_key("www-authenticate"@) ==> contents["www-authenticate"@].len() > 0,
    ensures
        first_text(contents, "www-authenticate"@) is None ==> with_redirected_challenge(
            contents,
            registries,
        ) == contents,
        first_text(contents, "www-authenticate"@) matches Some(challenge) ==> {
            &&& with_redirected_challenge(contents, registries)["www-authenticate"@][0]
                == vstd::utf8::encode_utf8(redirected_challenge(registries, challenge))
            &&& 0 < i < contents["www-authenticate"@].len() ==> with_redirected_challenge(
                contents,
                registries,
            )["www-authenticate"@][i] == contents["www-authenticate"@][i]
        },
{
}

/// The host of a URL, with its port, is what stands between the scheme and the
/// next slash; only `https` and `http` URLs have one.
pub proof fn law_url_authority(host: Seq<char>, rest: Seq<char>, other: Seq<char>)
    requires
        !host.contains('/'),
        rest.len() > 0 ==> rest[0] == '/',
        !"https://"@.is_prefix_of(other),
        !"http://"@.is_prefix_of(other),
    ensures
        url_authority("https://"@ + host + rest) == Some(host),
        url_authority("http://"@ + host + rest) == Some(host),
        url_authority(other) is None,
        url_host("https://"@ + host + rest) == Some(without_port(host)),
        url_host("http://"@ + host + rest) == Some(without_port(host)),
        url_host(other) is None,
{
    reveal_strlit("https://");
    reveal_strlit("http://");
    assert forall|j: int| 0 <= j < host.len() implies host[j] != '/' by {
        assert(host.contains(host[j]));
    }
    let tail = host + rest;
    assert(before(tail, '/') == host) by {
        if rest.len() > 0 {
            assert(tail =~= host + seq!['/'] + rest.skip(1));
            law_parting_at_separator(host, '/', rest.skip(1));
        } else {
            assert(tail =~= host);
            law_parting_at_separator(host, '/', rest);
        }
    }
    let safe = "https://"@ + host + rest;
    assert(safe.subrange(0, 8) =~= "https://"@);
    assert(safe.skip(8) =~= tail);
    let plain = "http://"@ + host + rest;
    assert(plain.subrange(0, 7) =~= "http://"@);
    assert(plain.skip(7) =~= tail);
    if "https://"@.is_prefix_of(plain) {
        assert(plain.subrange(0, 8)[4] == "https://"@[4]);
        assert(plain[4] == "http://"@[4]);
    }
}

/// The index behind the last colon.
proof fn lemma_last_colon_at(s: Seq<char>, k: int)
    requires
        0 <= k <= s.len(),
        k > 0 ==> s[k - 1] == ':',
        forall|j: int| k <= j < s.len() ==> s[j] != ':',
    ensures
        last_colon(s) == k,
    decreases s.len(),
{
    if k < s.len() {
        lemma_last_colon_at(s.drop_last(), k);
    }
}

/// A host loses the colon and the digits that it ends with, and nothing else: a
/// host without a colon stays, and so does one whose last colon is followed by
/// more than digits.
pub proof fn law_ports(host: Seq<char>, digits: Seq<char>, plain: Seq<char>, tail: Seq<char>)
    requires
        are_digits(digits),
        !plain.contains(':'),
        !tail.contains(':'),
        !are_digits(tail),
    ensures
        without_port(host + ":"@ + digits) == host,
        without_port(plain) == plain,
        without_port(host + ":"@ + tail) == host + ":"@ + tail,
{
    reveal_strlit(":");
    let n = host.len() as int;
    let s = host + ":"@ + digits;
    assert(s[n] == ':');
    assert forall|j: int| n + 1 <= j < s.len() implies s[j] != ':' by {
        assert(s[j] == digits[j - n - 1]);
    }
    lemma_last_colon_at(s, n + 1);
    assert(s.skip(n + 1) =~= digits);
    assert(s.take(n) =~= host);
    assert forall|j: int| 0 <= j < plain.len() implies plain[j] != ':' by {
        assert(plain.contains(plain[j]));
    }
    lemma_last_colon_at(plain, 0);
    let t = host + ":"@ + tail;
    assert(t[n] == ':');
    assert forall|j: int| n + 1 <= j < t.len() implies t[j] != ':' by {
        assert(t[j] == tail[j - n - 1]);
        assert(tail.contains(tail[j - n - 1]));
    }
    lemma_last_colon_at(t, n + 1);
    assert(t.skip(n + 1) =~= tail);
    assert(!only_digits(tail));
}

/// The account at a host is that of the first registry that has one there.
proof fn lemma_account_at_index(
    registries: Seq<(Seq<char>, MappingView)>,
    authority: Seq<char>,
    i: int,
)
    requires
        0 <= i <= registries.len(),
        forall|j: int| 0 <= j < i ==> !has_account_at((#[trigger] registries[j]).1, authority),
        i < registries.len() ==> has_account_at(registries[i].1, authority),
    ensures
        account_at(registries, authority) == if i < registries.len() {
            Some(registries[i].1)
        } else {
            None
        },
    decreases registries.len(),
{
    if i > 0 {
        let tail = registries.drop_first();
        assert(!has_account_at(registries[0].1, authority));
        assert forall|j: int| 0 <= j < i - 1 implies !has_account_at(
            (#[trigger] tail[j]).1,
            authority,
        ) by {
            assert(tail[j] == registries[j + 1]);
        }
        lemma_account_at_index(tail, authority, i - 1);
    }
}

/// A request logs in with the account of the first enabled registry with a user
/// name whose upstream host or token host is that of the URL, with its port or
/// without it.
pub proof fn law_account_of_url(
    contents: Map<Seq<char>, Seq<Seq<u8>>>,
    url: Seq<char>,
    registries: Seq<(Seq<char>, MappingView)>,
    authority: Seq<char>,
    i: int,
)
    requires
        !contents.contains_key("authorization"@),
        url_authority(url) == Some(authority),
        0 <= i < registries.len(),
        registries[i].1.enabled,
        registries[i].1.username.len() > 0,
        registries[i].1.upstream == authority || registries[i].1.upstream == without_port(authority)
            || before(registries[i].1.auth_host, '/') == authority || before(
            registries[i].1.auth_host,
            '/',
        ) == without_port(authority),
        forall|j: int|
            0 <= j < i && (#[trigger] registries[j]).1.enabled && registries[j].1.username.len() > 0
                ==> registries[j].1.upstream != authority && registries[j].1.upstream
                != without_port(authority) && before(registries[j].1.auth_host, '/') != authority
                && before(registries[j].1.auth_host, '/') != without_port(authority),
    ensures
        account_for(contents, url, registries) == Some(registries[i].1),
{
    lemma_account_at_index(registries, authority, i);
}

/// A request logs in nowhere where the client brings an authorization, where the
/// URL has no host, and at a host that belongs to no enabled registry with a user
/// name.
pub proof fn law_no_account(
    contents: Map<Seq<char>, Seq<Seq<u8>>>,
    url: Seq<char>,
    registries: Seq<(Seq<char>, MappingView)>,
)
    requires
        ({
            ||| contents.contains_key("authorization"@)
            ||| url_authority(url) is None
            ||| forall|j: int|
                0 <= j < registries.len() && (#[trigger] registries[j]).1.enabled
                    && registries[j].1.username.len() > 0 ==> {
                    let authority = url_authority(url)->0;
                    &&& registries[j].1.upstream != authority
                    &&& registries[j].1.upstream != without_port(authority)
                    &&& before(registries[j].1.auth_host, '/') != authority
                    &&& before(registries[j].1.auth_host, '/') != without_port(authority)
                }
        }),
    ensures
        account_for(contents, url, registries) is None,
{
    if !contents.contains_key("authorization"@) && url_authority(url) is Some {
        lemma_account_at_index(registries, url_authority(url)->0, registries.len() as int);
    }
}

/// Credentials are those of an account where user name and password are the
/// account's.
pub proof fn law_credentials(credentials: Option<Credentials>, account: Option<MappingView>)
    requires
        are_credentials_of(credentials, account),
    ensures
        credentials is Some <==> account is Some,
        credentials is Some ==> (credentials->0).username@ == (account->0).username
            && (credentials->0).password@ == (account->0).password,
{
}

/// A pattern without a star covers what begins with it, and nothing else; a lone
/// star covers everything.
pub proof fn law_star_free_patterns(pattern: Seq<char>, target: Seq<char>)
    requires
        !pattern.contains('*'),
    ensures
        covers(pattern, target) <==> pattern.len() <= target.len() && target.take(
            pattern.len() as int,
        ) == pattern,
        covers_plainly(pattern, target) <==> pattern.len() <= target.len() && target.take(
            pattern.len() as int,
        ) == pattern,
        covers(seq!['*'], target),
        covers_plainly(seq!['*'], target),
{
    reveal_strlit("*");
    assert("*"@[0] == '*');
    assert("*"@ =~= seq!['*']);
    assert("*"@.contains('*'));
    if pattern.len() <= target.len() {
        assert(target.take(pattern.len() as int) =~= target.subrange(0, pattern.len() as int));
    }
}

/// A pattern with a star, and more than that, covers what its regular expression
/// matches; the expression is the pattern's own, from the beginning of the target
/// to its end.
pub proof fn law_starred_patterns(pattern: Seq<char>, target: Seq<char>)
    requires
        pattern.contains('*'),
        pattern.len() > 1,
    ensures
        covers(pattern, target) <==> regex_compiles(wildcard_pattern(pattern)) && regex_matches(
            wildcard_pattern(pattern),
            target,
        ),
        covers_plainly(pattern, target) <==> wildcard_accepts(pattern, target),
        wildcard_pattern(pattern) == seq!['^'] + wildcard_body(pattern) + seq!['$'],
{
    reveal_strlit("*");
}

/// The regular expression of a pattern is put together from those of its parts: a
/// dot is escaped, a star becomes any characters, and any other character stays.
pub proof fn law_regular_expressions(a: Seq<char>, b: Seq<char>, c: char)
    requires
        c != '.',
        c != '*',
    ensures
        wildcard_body(a + b) == wildcard_body(a) + wildcard_body(b),
        wildcard_body(seq!['.']) == seq!['\\', '.'],
        wildcard_body(seq!['*']) == seq!['.', '*'],
        wildcard_body(seq![c]) == seq![c],
    decreases a.len(),
{
    assert forall|x: char| #[trigger] wildcard_body(seq![x]) == wildcard_piece(x) by {
        assert(seq![x].drop_first() =~= Seq::empty());
        assert(wildcard_body(Seq::empty()) == Seq::<char>::empty());
        assert(wildcard_piece(x) + Seq::<char>::empty() =~= wildcard_piece(x));
    }
    assert(wildcard_body(seq!['.']) == wildcard_piece('.'));
    assert(wildcard_body(seq!['*']) == wildcard_piece('*'));
    assert(wildcard_body(seq![c]) == wildcard_piece(c));
    if a.len() == 0 {
        assert(a + b =~= b);
        assert(wildcard_body(a) + wildcard_body(b) =~= wildcard_body(b));
    } else {
        assert((a + b).drop_first() =~= a.drop_first() + b);
        law_regular_expressions(a.drop_first(), b, c);
        assert(wildcard_body(a + b) =~= wildcard_body(a) + wildcard_body(b));
    }
}

/// A wildcard without a star stands for itself alone.
pub proof fn law_wildcard_without_star(wildcard: Seq<char>, text: Seq<char>)
    requires
        !wildcard.contains('*'),
    ensures
        wildcard_accepts(wildcard, text) <==> text == wildcard,
    decreases wildcard.len(),
{
    if wildcard.len() == 0 {
        assert(text.len() == 0 ==> text =~= wildcard);
    } else {
        assert(wildcard.contains(wildcard[0]));
        let tail = wildcard.drop_first();
        assert(!tail.contains('*')) by {
            if tail.contains('*') {
                let j = tail.index_of('*');
                assert(wildcard[j + 1] == '*');
            }
        }
        if text.len() > 0 {
            law_wildcard_without_star(tail, text.drop_first());
            if text[0] == wildcard[0] && text.drop_first() == tail {
                assert forall|k: int| 0 <= k < text.len() implies text[k] == wildcard[k] by {
                    if k > 0 {
                        assert(text.drop_first()[k - 1] == tail[k - 1]);
                    }
                }
                assert(text.len() == wildcard.len());
                assert(text =~= wildcard);
            }
        }
    }
}

/// The first star of a wildcard stands for any characters of one line: the text
/// is what stands in front of the star, such characters, and what the rest of the
/// wildcard stands for.
pub proof fn law_wildcard_star(front: Seq<char>, back: Seq<char>, line: Seq<char>, end: Seq<char>)
    requires
        !front.contains('*'),
        !line.contains('\n'),
        wildcard_accepts(back, end),
    ensures
        wildcard_accepts(front + seq!['*'] + back, front + line + end),
    decreases front.len(),
{
    let wildcard = front + seq!['*'] + back;
    let text = front + line + end;
    if front.len() == 0 {
        assert(wildcard.drop_first() =~= back);
        let k = line.len() as int;
        assert(text.take(k) =~= line);
        assert(text.skip(k) =~= end);
        assert(wildcard_accepts(wildcard.drop_first(), text.skip(k)));
    } else {
        assert(front.contains(front[0]));
        let tail = front.drop_first();
        assert(!tail.contains('*')) by {
            if tail.contains('*') {
                let j = tail.index_of('*');
                assert(front[j + 1] == '*');
            }
        }
        law_wildcard_star(tail, back, line, end);
        assert(wildcard.drop_first() =~= tail + seq!['*'] + back);
        assert(text.drop_first() =~= tail + line + end);
    }
}

/// What a wildcard stands for begins with what stands in front of its first star,
/// goes on with characters of one line, and ends in what the rest stands for.
pub proof fn law_wildcard_texts(front: Seq<char>, back: Seq<char>, text: Seq<char>)
    requires
        !front.contains('*'),
        wildcard_accepts(front + seq!['*'] + back, text),
    ensures
        front.is_prefix_of(text),
        exists|k: int|
            front.len() <= k <= text.len() && !text.subrange(front.len() as int, k).contains('\n')
                && wildcard_accepts(back, #[trigger] text.skip(k)),
    decreases front.len(),
{
    let wildcard = front + seq!['*'] + back;
    if front.len() == 0 {
        assert(wildcard.drop_first() =~= back);
        let k = choose|k: int|
            0 <= k <= text.len() && !text.take(k).contains('\n') && wildcard_accepts(
                wildcard.drop_first(),
                #[trigger] text.skip(k),
            );
        assert(text.subrange(0, k) =~= text.take(k));
        assert(front =~= text.subrange(0, 0));
        assert(wildcard_accepts(back, text.skip(k)));
    } else {
        assert(front.contains(front[0]));
        let tail = front.drop_first();
        assert(!tail.contains('*')) by {
            if tail.contains('*') {
                let j = tail.index_of('*');
                assert(front[j + 1] == '*');
            }
        }
        let rest = text.drop_first();
        assert(wildcard.drop_first() =~= tail + seq!['*'] + back);
        law_wildcard_texts(tail, back, rest);
        assert(front =~= text.subrange(0, front.len() as int)) by {
            assert forall|k: int| 0 <= k < front.len() implies front[k] == text[k] by {
                if k > 0 {
                    assert(rest.subrange(0, tail.len() as int)[k - 1] == tail[k - 1]);
                }
            }
        }
        let k = choose|k: int|
            tail.len() <= k <= rest.len() && !rest.subrange(tail.len() as int, k).contains('\n')
                && wildcard_accepts(back, #[trigger] rest.skip(k));
        assert(rest.subrange(tail.len() as int, k) =~= text.subrange(
            front.len() as int,
            k + 1,
        ));
        assert(rest.skip(k) =~= text.skip(k + 1));
        assert(wildcard_accepts(back, text.skip(k + 1)));
    }
}

/// Patterns without a star, and those of up to a thousand letters, digits, dots,
/// stars and other characters of image names, are ordinary ones.
pub proof fn law_ordinary_patterns(pattern: Seq<char>)
    requires
        !pattern.contains('*') || pattern.len() <= 1000 && forall|i: int|
            0 <= i < pattern.len() ==> {
                let c = #[trigger] pattern[i];
                ||| 'a' <= c && c <= 'z'
                ||| 'A' <= c && c <= 'Z'
                ||| '0' <= c && c <= '9'
                ||| c == '-' || c == '_' || c == '/' || c == ':' || c == '@' || c == '.' || c == '*'
            },
    ensures
        is_ordinary(pattern),
{
}

} // verus!
