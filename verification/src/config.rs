use vstd::prelude::*;
use crate::domain::model::text_of;

verus! {

/// Where the server listens, and the key it asks of its callers.
#[derive(Debug)]
pub struct ServerConfig {
    /// The host to bind to.
    pub host: String,
    /// The port to listen on.
    pub port: u16,
    /// The key that callers must show, if any.
    pub api_key: Option<String>,
}

/// How contexts are cut and ranked.
#[derive(Clone, Copy, Debug, PartialEq, Eq, Structural)]
pub struct ContextConfig {
    /// The greatest size of a chunk, in bytes.
    pub max_chunk_size: usize,
    /// The bytes that a full chunk shares with the next.
    pub chunk_overlap: usize,
    /// The greatest number of results of a search.
    pub max_results: usize,
}

/// How texts are embedded.
#[derive(Clone, Copy, Debug, PartialEq, Eq, Structural)]
pub struct EmbeddingConfig {
    /// The number of entries of a vector.
    pub dimension: usize,
}

/// The settings of the application.
#[derive(Debug)]
pub struct AppConfig {
    pub server: ServerConfig,
    pub context: ContextConfig,
    pub embedding: EmbeddingConfig,
}

/// The settings that one source gives: a file, or the environment. A setting
/// is absent where the source says nothing of it.
#[derive(Debug)]
pub struct ConfigLayer {
    pub host: Option<String>,
    pub port: Option<u16>,
    pub api_key: Option<String>,
    pub max_chunk_size: Option<usize>,
    pub chunk_overlap: Option<usize>,
    pub max_results: Option<usize>,
    pub dimension: Option<usize>,
}

/// The upper value where there is one, else the lower, else the default.
pub open spec fn layered<T>(upper: Option<T>, lower: Option<T>, default: T) -> T {
    match upper {
        Some(value) => value,
        None => match lower {
            Some(value) => value,
            None => default,
        },
    }
}

/// The upper number where there is one, else the lower, else the default.
fn pick(upper: Option<usize>, lower: Option<usize>, default: usize) -> (r: usize)
    ensures
        r == layered(upper, lower, default),
{
    match upper {
        Some(value) => value,
        None => match lower {
            Some(value) => value,
            None => default,
        },
    }
}

/// The upper text where there is one, else the lower.
fn pick_text(upper: Option<String>, lower: Option<String>) -> (r: Option<String>)
    ensures
        text_of(r) == match text_of(upper) {
            Some(value) => Some(value),
            None => text_of(lower),
        },
{
    match upper {
        Some(value) => Some(value),
        None => lower,
    }
}

impl ConfigLayer {
    /// A source that says nothing.
    pub fn empty() -> (r: Self)
        ensures
            r.host is None,
            r.port is None,
            r.api_key is None,
            r.max_chunk_size is None,
            r.chunk_overlap is None,
            r.max_results is None,
            r.dimension is None,
    {
        ConfigLayer {
            host: None,
            port: None,
            api_key: None,
            max_chunk_size: None,
            chunk_overlap: None,
            max_results: None,
            dimension: None,
        }
    }
}

impl AppConfig {
    /// The settings that result from a file and the environment: each
    /// setting is what the environment gives, else what the file gives, else
    /// its default. By default the server listens on 127.0.0.1, port 3000,
    /// and asks for no key; chunks hold up to 1000 bytes and share 200;
    /// searches return up to 10 results; vectors have 768 entries.
    pub fn load(file: ConfigLayer, environment: ConfigLayer) -> (config: Self)
        ensures
            config.server.host@ == layered(
                text_of(environment.host),
                text_of(file.host),
                "127.0.0.1"@,
            ),
            config.server.port == layered(environment.port, file.port, 3000),
            text_of(config.server.api_key) == match text_of(environment.api_key) {
                Some(key) => Some(key),
                None => text_of(file.api_key),
            },
            config.context.max_chunk_size == layered(
                environment.max_chunk_size,
                file.max_chunk_size,
                1000,
            ),
            config.context.chunk_overlap == layered(
                environment.chunk_overlap,
                file.chunk_overlap,
                200,
            ),
            config.context.max_results == layered(environment.max_results, file.max_results, 10),
            config.embedding.dimension == layered(environment.dimension, file.dimension, 768),
    {
        let host = match pick_text(environment.host, file.host) {
            Some(value) => value,
            None => "127.0.0.1".to_owned(),
        };
        let port = match environment.port {
            Some(value) => value,
            None => match file.port {
                Some(value) => value,
                None => 3000,
            },
        };
        AppConfig {
            server: ServerConfig {
                host,
                port,
                api_key: pick_text(environment.api_key, file.api_key),
            },
            context: ContextConfig {
                max_chunk_size: pick(environment.max_chunk_size, file.max_chunk_size, 1000),
                chunk_overlap: pick(environment.chunk_overlap, file.chunk_overlap, 200),
                max_results: pick(environment.max_results, file.max_results, 10),
            },
            embedding: EmbeddingConfig {
                dimension: pick(environment.dimension, file.dimension, 768),
            },
        }
    }
}

} // verus!
