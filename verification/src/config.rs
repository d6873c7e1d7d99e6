//! Configuration assembled from environment values. The surrounding
//! application reads the variables and hands their raw values in; this
//! module cleans and interprets them.

use vstd::prelude::*;

use crate::error::Error;
use crate::text;

verus! {

/// `s` without its leading double quotes.
pub open spec fn quote_ltrim(s: Seq<char>) -> Seq<char>
    decreases s.len(),
{
    if s.len() == 0 {
        s
    } else if s[0] == '"' {
        quote_ltrim(s.drop_first())
    } else {
        s
    }
}

/// `s` without its trailing double quotes.
pub open spec fn quote_rtrim(s: Seq<char>) -> Seq<char>
    decreases s.len(),
{
    if s.len() == 0 {
        s
    } else if s[s.len() - 1] == '"' {
        quote_rtrim(s.drop_last())
    } else {
        s
    }
}

/// An environment value with surrounding double quotes removed, as
/// `str::trim_matches('"')` reads it.
pub open spec fn env_cleaned(s: Seq<char>) -> Seq<char> {
    quote_rtrim(quote_ltrim(s))
}

proof fn lemma_quote_ltrim_at(s: Seq<char>, i: int)
    requires
        0 <= i <= s.len(),
        forall|k: int| 0 <= k < i ==> s[k] == '"',
        i == s.len() || s[i] != '"',
    ensures
        quote_ltrim(s) == s.subrange(i, s.len() as int),
    decreases i,
{
    if i == 0 {
        assert(s.subrange(0, s.len() as int) =~= s);
    } else {
        lemma_quote_ltrim_at(s.drop_first(), i - 1);
        assert(s.drop_first().subrange(i - 1, s.drop_first().len() as int) =~= s.subrange(
            i,
            s.len() as int,
        ));
    }
}

proof fn lemma_quote_rtrim_at(s: Seq<char>, j: int)
    requires
        0 <= j <= s.len(),
        forall|k: int| j <= k < s.len() ==> s[k] == '"',
        j == 0 || s[j - 1] != '"',
    ensures
        quote_rtrim(s) == s.subrange(0, j),
    decreases s.len() - j,
{
    if j == s.len() {
        assert(s.subrange(0, j) =~= s);
    } else {
        lemma_quote_rtrim_at(s.drop_last(), j);
        assert(s.drop_last().subrange(0, j) =~= s.subrange(0, j));
    }
}

/// Strips surrounding double quotes from a raw environment value.
fn clean_env_value(s: &str) -> (r: String)
    ensures
        r@ == env_cleaned(s@),
{
    let n = s.unicode_len();
    let mut i: usize = 0;
    while i < n && s.get_char(i) == '"'
        invariant
            0 <= i <= n,
            n == s@.len(),
            forall|k: int| 0 <= k < i ==> s@[k] == '"',
        decreases n - i,
    {
        i = i + 1;
    }
    proof {
        lemma_quote_ltrim_at(s@, i as int);
    }
    let mut j: usize = n;
    while j > i && s.get_char(j - 1) == '"'
        invariant
            i <= j <= n,
            n == s@.len(),
            forall|k: int| j <= k < n ==> s@[k] == '"',
        decreases j,
    {
        j = j - 1;
    }
    proof {
        let t = s@.subrange(i as int, n as int);
        lemma_quote_rtrim_at(t, j - i);
        assert(t.subrange(0, j - i) =~= s@.subrange(i as int, j as int));
    }
    String::from_str(s.substring_char(i, j))
}

/// The application's configuration.
#[allow(non_snake_case)]
pub struct Config {
    pub BASE_URL: String,
    pub DATABASE_URL: String,
    pub IS_PROD: bool,
}

impl Config {
    /// Builds the configuration from the raw values of the `BASE_URL`,
    /// `DATABASE_URL` and `IS_PROD` environment variables; a missing one
    /// fails with `MissingEnv`.
    pub fn load_from_env(
        base_url: Option<String>,
        database_url: Option<String>,
        is_prod: Option<String>,
    ) -> (r: Result<Config, Error>)
        ensures
            match r {
                Ok(c) => {
                    &&& base_url matches Some(b) && c.BASE_URL@ == env_cleaned(b@)
                    &&& database_url matches Some(u) && c.DATABASE_URL@ == env_cleaned(u@)
                    &&& is_prod matches Some(p) && c.IS_PROD == (env_cleaned(p@) == "true"@)
                },
                Err(e) => e == Error::MissingEnv && (base_url is None || database_url is None
                    || is_prod is None),
            },
    {
        let base_url = match base_url {
            Some(v) => v,
            None => {
                return Err(Error::MissingEnv);
            },
        };
        let database_url = match database_url {
            Some(v) => v,
            None => {
                return Err(Error::MissingEnv);
            },
        };
        let is_prod = match is_prod {
            Some(v) => v,
            None => {
                return Err(Error::MissingEnv);
            },
        };
        let prod_value = clean_env_value(is_prod.as_str());
        Ok(
            Config {
                BASE_URL: clean_env_value(base_url.as_str()),
                DATABASE_URL: clean_env_value(database_url.as_str()),
                IS_PROD: text::str_eq(prod_value.as_str(), "true"),
            },
        )
    }
}

/// Builds the configuration from environment values that must all be
/// present; the caller checks that beforehand, as the application aborts on
/// a missing one.
pub fn config(
    base_url: Option<String>,
    database_url: Option<String>,
    is_prod: Option<String>,
) -> (c: Config)
    requires
        base_url is Some,
        database_url is Some,
        is_prod is Some,
    ensures
        base_url matches Some(b) && c.BASE_URL@ == env_cleaned(b@),
        database_url matches Some(u) && c.DATABASE_URL@ == env_cleaned(u@),
        is_prod matches Some(p) && c.IS_PROD == (env_cleaned(p@) == "true"@),
{
    match Config::load_from_env(base_url, database_url, is_prod) {
        Ok(c) => c,
        Err(_) => vstd::pervasive::unreached(),
    }
}

/// The web layer's configuration.
#[allow(non_snake_case)]
pub struct WebConfig {
    pub WEB_FOLDER: String,
}

impl WebConfig {
    /// Builds the web configuration from the raw value of the
    /// `SERVICE_WEB_FOLDER` environment variable.
    pub fn load_from_env(web_folder: Option<String>) -> (r: Result<WebConfig, Error>)
        ensures
            match r {
                Ok(c) => web_folder matches Some(w) && c.WEB_FOLDER@ == env_cleaned(w@),
                Err(e) => e == Error::MissingEnv && web_folder is None,
            },
    {
        match web_folder {
            Some(v) => Ok(WebConfig { WEB_FOLDER: clean_env_value(v.as_str()) }),
            None => Err(Error::MissingEnv),
        }
    }
}

/// Builds the web configuration from an environment value that must be
/// present.
pub fn web_config(web_folder: Option<String>) -> (c: WebConfig)
    requires
        web_folder is Some,
    ensures
        web_folder matches Some(w) && c.WEB_FOLDER@ == env_cleaned(w@),
{
    match WebConfig::load_from_env(web_folder) {
        Ok(c) => c,
        Err(_) => vstd::pervasive::unreached(),
    }
}

} // verus!
