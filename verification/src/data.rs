//! The credential data model: the two on-disk records, the resolved provider
//! connection data, scope-set comparison, and the one-shot tool's arguments.

use vstd::prelude::*;

use crate::config::{ConfigMap, ConfigValue};
use crate::error::CredmonError;
use crate::strutil::{concat_strs, last_index_of, rfind_char, substr_to_string};

verus! {

broadcast use vstd::string::group_string_axioms;

/// The Refresh Record: the long-lived refresh token and the space-joined
/// scopes it was granted with.
pub struct RefreshFile {
    pub refresh_token: String,
    pub scopes: String,
}

/// The Access Record: the short-lived access token together with its expiry,
/// both relative (as granted) and absolute (computed at write time).
/// It is disposable cached state; its absence only triggers a renewal.
pub struct AccessFile {
    pub access_token: String,
    pub token_type: String,
    pub expires_in: u64,
    pub expires_at: u64,
    pub scope: Vec<String>,
}

/// Whether `c` separates scope names inside a stored scope string.
pub open spec fn is_scope_ws(c: char) -> bool {
    c == ' ' || c == '\t' || c == '\n' || c == '\r'
}

/// The length of the leading run of non-separator characters of `s`.
pub open spec fn token_end(s: Seq<char>) -> int
    decreases s.len(),
{
    if s.len() == 0 || is_scope_ws(s[0]) {
        0
    } else {
        1 + token_end(s.drop_first())
    }
}

/// `token_end` marks the first separator at or after the start, if any.
pub proof fn lemma_token_end(s: Seq<char>)
    ensures
        0 <= token_end(s) <= s.len(),
        s.len() > 0 && !is_scope_ws(s[0]) ==> token_end(s) >= 1,
        forall|m: int| 0 <= m < token_end(s) ==> !is_scope_ws(s[m]),
        token_end(s) < s.len() ==> is_scope_ws(s[token_end(s)]),
    decreases s.len(),
{
    if s.len() > 0 && !is_scope_ws(s[0]) {
        lemma_token_end(s.drop_first());
        assert forall|m: int| 1 <= m < s.len() implies s[m] == s.drop_first()[m - 1] by {}
    }
}

/// A separator-free run up to a separator (or the end) is what `token_end`
/// measures.
pub proof fn lemma_token_end_exact(s: Seq<char>, k: int)
    requires
        0 <= k <= s.len(),
        forall|m: int| 0 <= m < k ==> !is_scope_ws(s[m]),
        k < s.len() ==> is_scope_ws(s[k]),
    ensures
        token_end(s) == k,
    decreases s.len(),
{
    if s.len() > 0 && !is_scope_ws(s[0]) {
        assert forall|m: int| 1 <= m < s.len() implies s[m] == s.drop_first()[m - 1] by {}
        lemma_token_end_exact(s.drop_first(), k - 1);
    }
}

/// The whitespace-delimited scope names of `s`, in order, duplicates kept.
pub open spec fn split_tokens(s: Seq<char>) -> Seq<Seq<char>>
    decreases s.len(),
    via split_tokens_decreases
{
    if s.len() == 0 {
        Seq::empty()
    } else if is_scope_ws(s[0]) {
        split_tokens(s.drop_first())
    } else {
        seq![s.take(token_end(s))] + split_tokens(s.skip(token_end(s)))
    }
}

#[via_fn]
proof fn split_tokens_decreases(s: Seq<char>) {
    lemma_token_end(s);
}

/// The set of scope names granted by `s`: order and duplicates do not count.
pub open spec fn scope_set(s: Seq<char>) -> Set<Seq<char>> {
    split_tokens(s).to_set()
}

/// Collects the scope names of `s` in order.
fn scope_tokens(s: &str) -> (v: Vec<String>)
    ensures
        v@.map_values(|t: String| t@) == split_tokens(s@),
{
    let n = s.unicode_len();
    let mut out: Vec<String> = Vec::new();
    let mut i: usize = 0;
    proof {
        assert(s@.skip(0) =~= s@);
        assert(out@.map_values(|t: String| t@) + split_tokens(s@) =~= split_tokens(s@));
    }
    while i < n
        invariant
            i <= n,
            n == s@.len(),
            split_tokens(s@) =~= out@.map_values(|t: String| t@) + split_tokens(
                s@.skip(i as int),
            ),
        decreases n - i,
    {
        let c = s.get_char(i);
        if c == ' ' || c == '\t' || c == '\n' || c == '\r' {
            proof {
                assert(s@.skip(i as int).drop_first() =~= s@.skip(i + 1));
            }
            i = i + 1;
        } else {
            let start = i;
            let mut j = i + 1;
            while j < n
                invariant
                    start < j <= n,
                    n == s@.len(),
                    forall|m: int| start <= m < j ==> !is_scope_ws(s@[m]),
                ensures
                    start < j <= n,
                    forall|m: int| start <= m < j ==> !is_scope_ws(s@[m]),
                    j < n ==> is_scope_ws(s@[j as int]),
                decreases n - j,
            {
                let c2 = s.get_char(j);
                if c2 == ' ' || c2 == '\t' || c2 == '\n' || c2 == '\r' {
                    break ;
                }
                j = j + 1;
            }
            let piece = substr_to_string(s, start, j);
            proof {
                let suff = s@.skip(start as int);
                assert forall|m: int| 0 <= m < j - start implies !is_scope_ws(suff[m]) by {
                    assert(suff[m] == s@[start + m]);
                }
                if j < n {
                    assert(suff[j - start] == s@[j as int]);
                }
                lemma_token_end_exact(suff, j - start);
                assert(suff.take(j - start) =~= s@.subrange(start as int, j as int));
                assert(suff.skip(j - start) =~= s@.skip(j as int));
                assert((out@.map_values(|t: String| t@)).push(piece@) =~= (out@.push(
                    piece,
                )).map_values(|t: String| t@));
            }
            out.push(piece);
            i = j;
        }
    }
    proof {
        assert(s@.skip(n as int) =~= Seq::<char>::empty());
        assert(out@.map_values(|t: String| t@) =~= split_tokens(s@));
    }
    out
}

/// Whether some element of `v` reads as `t`.
fn has_token(v: &Vec<String>, t: &str) -> (r: bool)
    ensures
        r == v@.map_values(|x: String| x@).contains(t@),
{
    let mut i: usize = 0;
    while i < v.len()
        invariant
            i <= v@.len(),
            forall|m: int| 0 <= m < i ==> (#[trigger] v@[m])@ != t@,
        decreases v@.len() - i,
    {
        if crate::strutil::str_eq(v[i].as_str(), t) {
            proof {
                assert(v@.map_values(|x: String| x@)[i as int] == t@);
            }
            return true;
        }
        i = i + 1;
    }
    proof {
        let mv = v@.map_values(|x: String| x@);
        assert forall|w: int| 0 <= w < mv.len() implies (#[trigger] mv[w]) != t@ by {
            assert(mv[w] == v@[w]@);
        }
        assert(!mv.contains(t@));
    }
    false
}

/// Whether every scope name of `a` also appears in `b`.
fn tokens_subset(a: &Vec<String>, b: &Vec<String>) -> (r: bool)
    ensures
        r == a@.map_values(|x: String| x@).to_set().subset_of(
            b@.map_values(|x: String| x@).to_set(),
        ),
{
    let ghost av = a@.map_values(|x: String| x@);
    let ghost bv = b@.map_values(|x: String| x@);
    let mut i: usize = 0;
    while i < a.len()
        invariant
            i <= a@.len(),
            av == a@.map_values(|x: String| x@),
            bv == b@.map_values(|x: String| x@),
            forall|m: int| 0 <= m < i ==> bv.contains(#[trigger] av[m]),
        decreases a@.len() - i,
    {
        if !has_token(b, a[i].as_str()) {
            proof {
                assert(av[i as int] == a@[i as int]@);
                assert(av.contains(av[i as int]));
                assert(!bv.contains(av[i as int]));
                assert(av.to_set().contains(av[i as int]));
                assert(!bv.to_set().contains(av[i as int]));
                assert(!av.to_set().subset_of(bv.to_set()));
            }
            return false;
        }
        i = i + 1;
    }
    proof {
        assert forall|t: Seq<char>| av.to_set().contains(t) implies bv.to_set().contains(t) by {
            let w = choose|w: int| 0 <= w < av.len() && av[w] == t;
            assert(bv.contains(av[w]));
        }
    }
    true
}

/// Whether two scope strings grant the same set of scope names, ignoring
/// order and duplicates.
pub fn compare_scopes(requested: &str, stored: &str) -> (r: bool)
    ensures
        r == (scope_set(requested@) == scope_set(stored@)),
{
    let a = scope_tokens(requested);
    let b = scope_tokens(stored);
    let ab = tokens_subset(&a, &b);
    let ba = tokens_subset(&b, &a);
    proof {
        let av = a@.map_values(|x: String| x@);
        let bv = b@.map_values(|x: String| x@);
        if ab && ba {
            assert(av.to_set() =~= bv.to_set());
        }
        if av.to_set() == bv.to_set() {
            assert(av.to_set().subset_of(bv.to_set()));
            assert(bv.to_set().subset_of(av.to_set()));
        }
    }
    ab && ba
}

/// Where a provider's configuration points: issuer, client id, and the path
/// of the file holding the client secret (the secret itself is never stored
/// inline in configuration).
pub struct ProviderConfig {
    pub issuer_url: String,
    pub client_id: String,
    pub client_secret_file: String,
}

/// The connection data handed to the token exchange client: issuer, client
/// id, and the client secret read from the configured file.
pub struct ClientInfo {
    pub issuer_url: String,
    pub client_id: String,
    pub client_secret: String,
}

/// Whether a configuration value is usable as a provider setting: present,
/// text, and non-empty.
pub open spec fn good_text(v: Option<ConfigValue>) -> bool {
    match v {
        Some(ConfigValue::Text(s)) => s@.len() > 0,
        _ => false,
    }
}

/// The text a usable configuration value holds.
pub open spec fn text_of(v: Option<ConfigValue>) -> Seq<char>
    recommends
        good_text(v),
{
    match v {
        Some(ConfigValue::Text(s)) => s@,
        _ => Seq::empty(),
    }
}

/// Whether the three provider settings of `id` all resolve in `cfg`.
pub open spec fn spec_resolves(id: Seq<char>, cfg: ConfigMap) -> bool {
    &&& good_text(cfg.spec_get(id + "_ISSUER"@))
    &&& good_text(cfg.spec_get(id + "_CLIENT_ID"@))
    &&& good_text(cfg.spec_get(id + "_CLIENT_SECRET_FILE"@))
}

/// The identifier whose settings are ultimately consulted for `id`: `id`
/// itself when it resolves, else — when `id` carries a handle after its last
/// underscore — the provider part to its left.
pub open spec fn fallback_id(id: Seq<char>, cfg: ConfigMap) -> Seq<char> {
    if spec_resolves(id, cfg) {
        id
    } else if last_index_of(id, '_') >= 0 {
        id.take(last_index_of(id, '_'))
    } else {
        id
    }
}

/// The provider/handle fallback rule: when an identifier with a handle has no
/// settings of its own, it is resolved exactly as its provider part alone
/// would be, so both name the same connection data.
pub proof fn lemma_resolver_fallback(id: Seq<char>, cfg: ConfigMap)
    requires
        !spec_resolves(id, cfg),
        last_index_of(id, '_') >= 0,
    ensures
        fallback_id(id, cfg) == id.take(last_index_of(id, '_')),
        spec_resolves(id.take(last_index_of(id, '_')), cfg) ==> fallback_id(
            id.take(last_index_of(id, '_')),
            cfg,
        ) == fallback_id(id, cfg),
{
}

/// Whether the three provider settings of `id` resolve exactly in the
/// snapshot.
pub fn provider_resolves(id: &str, config: &ConfigMap) -> (r: bool)
    ensures
        r == spec_resolves(id@, *config),
{
    match resolve_exact(id, config) {
        Ok(_) => true,
        Err(_) => false,
    }
}

/// Resolves the three settings of `id` exactly, with no fallback.
fn resolve_exact(id: &str, config: &ConfigMap) -> (r: Result<ProviderConfig, CredmonError>)
    ensures
        spec_resolves(id@, *config) ==> (r matches Ok(p) && p.issuer_url@ == text_of(
            config.spec_get(id@ + "_ISSUER"@),
        ) && p.client_id@ == text_of(config.spec_get(id@ + "_CLIENT_ID"@))
            && p.client_secret_file@ == text_of(config.spec_get(id@ + "_CLIENT_SECRET_FILE"@))),
        !spec_resolves(id@, *config) ==> (r matches Err(e) && (if !good_text(
            config.spec_get(id@ + "_ISSUER"@),
        ) {
            e is IssuerError
        } else {
            e is ConfigError
        })),
{
    let issuer_key = concat_strs(id, "_ISSUER");
    let issuer_url = match config.get(issuer_key.as_str()) {
        Some(ConfigValue::Text(s)) if !s.as_str().is_empty() => s.clone(),
        Some(_) => {
            return Err(
                CredmonError::IssuerError(
                    concat_strs(issuer_key.as_str(), " is not a usable string"),
                ),
            );
        },
        None => {
            return Err(
                CredmonError::IssuerError(
                    concat_strs("missing ", issuer_key.as_str()).concat(" in config"),
                ),
            );
        },
    };
    let client_id_key = concat_strs(id, "_CLIENT_ID");
    let client_id = match config.get(client_id_key.as_str()) {
        Some(ConfigValue::Text(s)) if !s.as_str().is_empty() => s.clone(),
        Some(_) => {
            return Err(
                CredmonError::ConfigError(
                    concat_strs(client_id_key.as_str(), " is not a usable string"),
                ),
            );
        },
        None => {
            return Err(
                CredmonError::ConfigError(
                    concat_strs("missing ", client_id_key.as_str()).concat(" in config"),
                ),
            );
        },
    };
    let secret_key = concat_strs(id, "_CLIENT_SECRET_FILE");
    let client_secret_file = match config.get(secret_key.as_str()) {
        Some(ConfigValue::Text(s)) if !s.as_str().is_empty() => s.clone(),
        Some(_) => {
            return Err(
                CredmonError::ConfigError(
                    concat_strs(secret_key.as_str(), " is not a usable string"),
                ),
            );
        },
        None => {
            return Err(
                CredmonError::ConfigError(
                    concat_strs("missing ", secret_key.as_str()).concat(" in config"),
                ),
            );
        },
    };
    Ok(ProviderConfig { issuer_url, client_id, client_secret_file })
}

/// Resolves a credential's identifier (`provider` or `provider_handle`) to
/// its provider settings: first an exact match on the whole identifier, and
/// when that fails and the identifier has a handle, a retry on the provider
/// part left of the last underscore.
pub fn resolve_provider(identifier: &str, config: &ConfigMap) -> (r: Result<
    ProviderConfig,
    CredmonError,
>)
    ensures
        spec_resolves(fallback_id(identifier@, *config), *config) ==> (r matches Ok(p)
            && p.issuer_url@ == text_of(
            config.spec_get(fallback_id(identifier@, *config) + "_ISSUER"@),
        ) && p.client_id@ == text_of(
            config.spec_get(fallback_id(identifier@, *config) + "_CLIENT_ID"@),
        ) && p.client_secret_file@ == text_of(
            config.spec_get(fallback_id(identifier@, *config) + "_CLIENT_SECRET_FILE"@),
        )),
        !spec_resolves(fallback_id(identifier@, *config), *config) ==> (r matches Err(e) && (
        if !good_text(config.spec_get(fallback_id(identifier@, *config) + "_ISSUER"@)) {
            e is IssuerError
        } else {
            e is ConfigError
        })),
{
    match resolve_exact(identifier, config) {
        Ok(p) => Ok(p),
        Err(e) => match rfind_char(identifier, '_') {
            Some(i) => {
                proof {
                    crate::strutil::lemma_last_index_of(identifier@, '_');
                }
                let provider = substr_to_string(identifier, 0, i);
                resolve_exact(provider.as_str(), config)
            },
            None => Err(e),
        },
    }
}

impl ClientInfo {
    /// Builds the connection data of `provider_name` from its exact settings
    /// and the secret read from the configured file, which the caller hands
    /// in because only it performs file input.
    pub fn new(provider_name: &str, config: &ConfigMap, client_secret: String) -> (r: Result<
        ClientInfo,
        CredmonError,
    >)
        ensures
            spec_resolves(provider_name@, *config) ==> (r matches Ok(c) && c.issuer_url@
                == text_of(
                config.spec_get(provider_name@ + "_ISSUER"@),
            ) && c.client_id@ == text_of(config.spec_get(provider_name@ + "_CLIENT_ID"@))
                && c.client_secret@ == client_secret@),
            !spec_resolves(provider_name@, *config) ==> (r matches Err(e) && (if !good_text(
                config.spec_get(provider_name@ + "_ISSUER"@),
            ) {
                e is IssuerError
            } else {
                e is ConfigError
            })),
    {
        match resolve_exact(provider_name, config) {
            Ok(p) => Ok(
                ClientInfo { issuer_url: p.issuer_url, client_id: p.client_id, client_secret },
            ),
            Err(e) => Err(e),
        }
    }
}

/// The one-shot creation tool's arguments: the provider to contact, the
/// scopes to request (space-separated), and the optional handle.
pub struct Args {
    pub provider: String,
    pub scopes: String,
    pub handle: Option<String>,
}

/// The value of the last `key=value` entry for `key`, if any; entries
/// without an equals sign are ignored.
pub open spec fn arg_lookup(entries: Seq<Seq<char>>, key: Seq<char>) -> Option<Seq<char>>
    decreases entries.len(),
{
    if entries.len() == 0 {
        None
    } else {
        let e = entries.last();
        let i = crate::strutil::first_index_of(e, '=');
        if i >= 0 && e.take(i) == key {
            Some(e.skip(i + 1))
        } else {
            arg_lookup(entries.drop_last(), key)
        }
    }
}

/// `s` with every comma turned into a space.
pub open spec fn commas_to_spaces(s: Seq<char>) -> Seq<char> {
    s.map_values(|c: char| if c == ',' { ' ' } else { c })
}

/// Copies `s`, turning every comma into a space.
fn replace_commas(s: &str) -> (r: String)
    ensures
        r@ == commas_to_spaces(s@),
{
    let n = s.unicode_len();
    let mut out = String::new();
    let mut i: usize = 0;
    while i < n
        invariant
            i <= n,
            n == s@.len(),
            out@ =~= commas_to_spaces(s@.take(i as int)),
        decreases n - i,
    {
        let c = s.get_char(i);
        if c == ',' {
            proof {
                reveal_strlit(" ");
                assert(" "@ =~= seq![' ']);
            }
            out.append(" ");
        } else {
            let piece = s.substring_char(i, i + 1);
            out.append(piece);
            proof {
                assert(piece@ =~= seq![s@[i as int]]);
            }
        }
        proof {
            assert(commas_to_spaces(s@.take(i + 1)) =~= commas_to_spaces(
                s@.take(i as int),
            ).push(if s@[i as int] == ',' { ' ' } else { s@[i as int] }));
        }
        i = i + 1;
    }
    proof {
        assert(s@.take(n as int) =~= s@);
    }
    out
}

impl Args {
    /// Parses the tool's argument vector. The single positional argument is
    /// a `key=value` list joined by `&`; `options` names the provider,
    /// `scopes` is a comma-separated list converted to space-separated, and
    /// `handle` is optional. A later entry for the same key wins.
    pub fn from_env_impl(argv: Vec<String>) -> (r: Result<Args, CredmonError>)
        ensures
            argv@.len() < 2 ==> (r matches Err(e) && e is ArgumentError),
            argv@.len() >= 2 ==> {
                let es = crate::strutil::split_on(argv@[1]@, '&');
                match arg_lookup(es, "options"@) {
                    None => r matches Err(e) && e is ArgumentError,
                    Some(p) => r matches Ok(a) && a.provider@ == p && a.scopes@ == (
                    match arg_lookup(es, "scopes"@) {
                        Some(sc) => commas_to_spaces(sc),
                        None => Seq::<char>::empty(),
                    }) && (match arg_lookup(es, "handle"@) {
                        Some(h) => a.handle matches Some(hs) && hs@ == h,
                        None => a.handle is None,
                    }),
                }
            },
    {
        if argv.len() < 2 {
            return Err(
                CredmonError::ArgumentError(
                    String::from_str("need to specify scopes and options (provider)"),
                ),
            );
        }
        let entries = crate::strutil::split_string(argv[1].as_str(), '&');
        let ghost es = crate::strutil::split_on(argv@[1]@, '&');
        let mut provider: Option<String> = None;
        let mut scopes_raw: Option<String> = None;
        let mut handle: Option<String> = None;
        let mut i: usize = 0;
        proof {
            assert(entries@.map_values(|t: String| t@).take(0) =~= Seq::<Seq<char>>::empty());
        }
        while i < entries.len()
            invariant
                i <= entries@.len(),
                entries@.map_values(|t: String| t@) == es,
                match provider {
                    Some(p) => arg_lookup(es.take(i as int), "options"@) == Some(p@),
                    None => arg_lookup(es.take(i as int), "options"@) is None,
                },
                match scopes_raw {
                    Some(p) => arg_lookup(es.take(i as int), "scopes"@) == Some(p@),
                    None => arg_lookup(es.take(i as int), "scopes"@) is None,
                },
                match handle {
                    Some(p) => arg_lookup(es.take(i as int), "handle"@) == Some(p@),
                    None => arg_lookup(es.take(i as int), "handle"@) is None,
                },
            decreases entries@.len() - i,
        {
            let entry: &String = &entries[i];
            proof {
                reveal_strlit("options");
                reveal_strlit("scopes");
                reveal_strlit("handle");
                assert("options"@.len() == 7);
                assert("scopes"@.len() == 6);
                assert("scopes"@[0] == 's' && "handle"@[0] == 'h');
                assert("options"@ != "scopes"@);
                assert("options"@ != "handle"@);
                assert("scopes"@ != "handle"@);
                assert(es[i as int] == entry@);
                assert(es.take(i + 1).last() == es[i as int]);
                assert(es.take(i + 1).drop_last() =~= es.take(i as int));
            }
            match crate::strutil::find_char(entry.as_str(), '=') {
                Some(k) => {
                    proof {
                        crate::strutil::lemma_first_index_of(entry@, '=');
                    }
                    let entry_len = entry.as_str().unicode_len();
                    let key = substr_to_string(entry.as_str(), 0, k);
                    let val = substr_to_string(entry.as_str(), k + 1, entry_len);
                    proof {
                        assert(key@ =~= entry@.take(k as int));
                        assert(val@ =~= entry@.skip(k + 1));
                    }
                    if crate::strutil::str_eq(key.as_str(), "options") {
                        provider = Some(val);
                    } else if crate::strutil::str_eq(key.as_str(), "scopes") {
                        scopes_raw = Some(val);
                    } else if crate::strutil::str_eq(key.as_str(), "handle") {
                        handle = Some(val);
                    }
                },
                None => {},
            }
            i = i + 1;
        }
        proof {
            assert(es.take(es.len() as int) =~= es);
        }
        let provider = match provider {
            Some(p) => p,
            None => {
                return Err(
                    CredmonError::ArgumentError(
                        String::from_str("need to specify provider in options"),
                    ),
                );
            },
        };
        let scopes = match scopes_raw {
            Some(s) => replace_commas(s.as_str()),
            None => String::new(),
        };
        Ok(Args { provider, scopes, handle })
    }
}

} // verus!
