//! Settings of the vLLM server and the URLs derived from them.
use vstd::prelude::*;
use crate::text::{chars_of, ends_with, ends_with_chars, parse_u64, parse_unsigned, push_str, string_of, string_of_range};

verus! {

/// Settings shared by the tools.
pub struct Config {
    pub vllm_base_url: String,
    pub batch_size: usize,
    pub connect_timeout_secs: u64,
}

/// The server used when `VLLM_BASE_URL` is unset.
pub open spec fn default_base_url() -> Seq<char> {
    "http://localhost:30000/v1"@
}

/// Files processed concurrently when `BATCH_SIZE` is unset or not a number.
pub open spec fn default_batch_size() -> usize {
    4
}

impl Config {
    /// Forms the settings from the values of `VLLM_BASE_URL` and `BATCH_SIZE`
    /// (`None` when a variable is unset).
    pub fn from_values(vllm_base_url: Option<String>, batch_size: Option<String>) -> (res: Config)
        ensures
            res.vllm_base_url@ == match vllm_base_url {
                Some(u) => u@,
                None => default_base_url(),
            },
            res.batch_size == match batch_size {
                Some(b) => match parse_unsigned(b@, usize::MAX as nat) {
                    Some(n) => n as usize,
                    None => default_batch_size(),
                },
                None => default_batch_size(),
            },
            res.connect_timeout_secs == 5,
    {
        let base = match vllm_base_url {
            Some(u) => u,
            None => string_of("http://localhost:30000/v1"),
        };
        let batch = match batch_size {
            Some(b) => match parse_u64(b.as_str()) {
                Some(n) => if n <= usize::MAX as u64 {
                    n as usize
                } else {
                    4
                },
                None => 4,
            },
            None => 4,
        };
        Config { vllm_base_url: base, batch_size: batch, connect_timeout_secs: 5 }
    }

    /// Normalise base URL and return /v1/models endpoint.
    pub fn models_url(&self) -> (res: String)
        ensures
            res@ == models_url_of(self.vllm_base_url@),
    {
        models_url_for(self.vllm_base_url.as_str())
    }
}

/// `s` without its trailing slashes (`trim_end_matches('/')`).
pub open spec fn trim_end_slashes(s: Seq<char>) -> Seq<char>
    decreases s.len(),
{
    if s.len() > 0 && s.last() == '/' {
        trim_end_slashes(s.drop_last())
    } else {
        s
    }
}

/// The models endpoint of a server: trailing slashes and then one trailing
/// `/v1` removed, `/v1/models` appended.
pub open spec fn models_url_of(base: Seq<char>) -> Seq<char> {
    let u = trim_end_slashes(base);
    let root = if ends_with(u, "/v1"@) {
        u.take(u.len() - 3)
    } else {
        u
    };
    root + "/v1/models"@
}

/// The chat-completions endpoint of a server: trailing slashes removed, then
/// `/chat/completions` after a trailing `/v1`, `/v1/chat/completions` otherwise.
pub open spec fn chat_completions_url_of(base: Seq<char>) -> Seq<char> {
    let u = trim_end_slashes(base);
    if ends_with(u, "/v1"@) {
        u + "/chat/completions"@
    } else {
        u + "/v1/chat/completions"@
    }
}

/// Length of `v` without its trailing slashes.
fn trimmed_slash_len(v: &Vec<char>) -> (res: usize)
    ensures
        res <= v@.len(),
        v@.take(res as int) == trim_end_slashes(v@),
{
    let mut n = v.len();
    proof {
        assert(v@.take(v@.len() as int) =~= v@);
    }
    while n > 0 && v[n - 1] == '/'
        invariant
            n <= v@.len(),
            trim_end_slashes(v@) == trim_end_slashes(v@.take(n as int)),
        decreases n,
    {
        proof {
            assert(v@.take(n as int).drop_last() =~= v@.take(n - 1));
        }
        n = n - 1;
    }
    proof {
        if n > 0 {
            assert(v@.take(n as int).last() == v@[n - 1]);
        }
        assert(v@.take(v@.len() as int) =~= v@);
    }
    n
}

/// `"/v1"` ends `v[..n]`.
fn ends_with_v1(v: &Vec<char>, n: usize) -> (res: bool)
    requires
        n <= v@.len(),
    ensures
        res == ends_with(v@.take(n as int), "/v1"@),
{
    let t = string_of_range(v, 0, n);
    let tv = chars_of(t.as_str());
    let suffix = chars_of("/v1");
    proof {
        assert(tv@ =~= v@.take(n as int));
    }
    ends_with_chars(&tv, &suffix)
}

/// The models endpoint for a base URL.
pub fn models_url_for(base: &str) -> (res: String)
    ensures
        res@ == models_url_of(base@),
{
    let v = chars_of(base);
    let n = trimmed_slash_len(&v);
    let strip = ends_with_v1(&v, n);
    proof {
        reveal_strlit("/v1");
    }
    let end = if strip {
        n - 3
    } else {
        n
    };
    let mut out = string_of_range(&v, 0, end);
    push_str(&mut out, "/v1/models");
    proof {
        assert(v@.subrange(0, end as int) =~= if strip {
            v@.take(n as int).take(n - 3)
        } else {
            v@.take(n as int)
        });
    }
    out
}

/// The chat-completions endpoint for a base URL.
pub fn chat_completions_url(base: &str) -> (res: String)
    ensures
        res@ == chat_completions_url_of(base@),
{
    let v = chars_of(base);
    let n = trimmed_slash_len(&v);
    let mut out = string_of_range(&v, 0, n);
    proof {
        assert(v@.subrange(0, n as int) =~= v@.take(n as int));
    }
    if ends_with_v1(&v, n) {
        push_str(&mut out, "/chat/completions");
    } else {
        push_str(&mut out, "/v1/chat/completions");
    }
    out
}

/// Laws of endpoint derivation: trailing slashes on the base URL do not
/// matter, and a base URL with or without its `/v1` suffix names the same
/// endpoints.
pub proof fn law_endpoint_normalisation(root: Seq<char>)
    requires
        trim_end_slashes(root) == root,
        !ends_with(root, "/v1"@),
    ensures
        models_url_of(root + "/"@) == models_url_of(root),
        chat_completions_url_of(root + "/"@) == chat_completions_url_of(root),
        models_url_of(root + "/v1"@) == models_url_of(root),
        chat_completions_url_of(root + "/v1"@) == chat_completions_url_of(root),
        models_url_of(root + "/v1/"@) == models_url_of(root),
{
    reveal_strlit("/");
    reveal_strlit("/v1");
    reveal_strlit("/v1/");
    let s1 = root + "/"@;
    assert(s1.drop_last() =~= root);
    assert(trim_end_slashes(s1) == root);
    let s2 = root + "/v1"@;
    assert(s2.last() == '1');
    assert(trim_end_slashes(s2) == s2);
    assert(s2.skip(s2.len() - 3) =~= "/v1"@);
    assert(s2.take(s2.len() - 3) =~= root);
    let s3 = root + "/v1/"@;
    assert(s3.drop_last() =~= s2);
    assert(trim_end_slashes(s3) == s2);
    assert(s2 + "/chat/completions"@ =~= root + "/v1/chat/completions"@) by {
        reveal_strlit("/chat/completions");
        reveal_strlit("/v1/chat/completions");
    }
}

/// Laws of the endpoint URLs: for a server root without a trailing slash or
/// `/v1`, the models endpoint is the root followed by `/v1/models` and the
/// chat endpoint the root followed by `/v1/chat/completions`, whether the
/// base URL names the root or the root with `/v1`.
pub proof fn law_endpoint_urls(root: Seq<char>)
    requires
        root.len() == 0 || root.last() != '/',
        !ends_with(root, "/v1"@),
    ensures
        models_url_of(root) == root + "/v1/models"@,
        chat_completions_url_of(root) == root + "/v1/chat/completions"@,
        models_url_of(root + "/v1"@) == root + "/v1/models"@,
        chat_completions_url_of(root + "/v1"@) == root + "/v1/chat/completions"@,
{
    reveal_strlit("/v1");
    reveal_strlit("/chat/completions");
    reveal_strlit("/v1/chat/completions");
    assert(trim_end_slashes(root) == root);
    let s2 = root + "/v1"@;
    assert(s2.last() == '1');
    assert(trim_end_slashes(s2) == s2);
    assert(s2.skip(s2.len() - 3) =~= "/v1"@);
    assert(s2.take(s2.len() - 3) =~= root);
    assert(s2 + "/chat/completions"@ =~= root + "/v1/chat/completions"@);
}

} // verus!
