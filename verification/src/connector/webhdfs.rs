//! A store of objects on a distributed file system.
use vstd::prelude::*;
use vstd::string::*;

verus! {

/// The access to a store of objects, from the crate `opendal`.
#[verifier::external_type_specification]
#[verifier::external_body]
pub struct ExOperator(opendal::Operator);

/// What goes wrong in the crate `opendal`.
#[verifier::external_type_specification]
#[verifier::external_body]
pub struct ExOpendalError(opendal::Error);

/// What a store on a distributed file system is made with.
#[derive(Debug)]
pub struct WebhdfsSettings {
    /// Where the file system is reached.
    pub endpoint: String,
    /// The directory under which all objects are.
    pub root: String,
    /// The directory in which objects are written before they are moved to their places.
    pub atomic_write_dir: String,
}

impl WebhdfsSettings {
    /// The settings of a store under the given root, which writes first to the given directory there.
    pub fn new(endpoint: String, root: String, write_dir: &str) -> (res: WebhdfsSettings)
        ensures
            res.endpoint == endpoint,
            res.root == root,
            res.atomic_write_dir@ == root@ + "/"@ + write_dir@,
    {
        let mut atomic_write_dir = root.clone();
        atomic_write_dir.append("/");
        atomic_write_dir.append(write_dir);
        WebhdfsSettings { endpoint, root, atomic_write_dir }
    }
}

/// What an access to a distributed file system was made with: the endpoint, the root, and the directory to
/// write to first.
pub uninterp spec fn webhdfs_settings(op: opendal::Operator) -> (Seq<char>, Seq<char>, Seq<char>);

/// Calls `opendal::Operator::new` on a builder of `opendal::services::Webhdfs` that has been given the
/// settings, and adds the layer that logs. Where it succeeds, the access was made with the settings. Nothing is
/// said of when it succeeds, which depends on the machine, nor of the client for HTTP in the access, which
/// takes its proxies from the environment.
#[verifier::external_body]
fn build_operator(settings: &WebhdfsSettings) -> (res: Result<opendal::Operator, opendal::Error>)
    ensures
        res matches Ok(op) ==> webhdfs_settings(op) == (
            settings.endpoint@,
            settings.root@,
            settings.atomic_write_dir@,
        ),
{
    let mut builder = opendal::services::Webhdfs::default();
    builder.endpoint(&settings.endpoint);
    builder.root(&settings.root);
    builder.atomic_write_dir(&settings.atomic_write_dir);
    let operator = opendal::Operator::new(builder)?;
    Ok(operator.layer(opendal::layers::LoggingLayer::default()).finish())
}

/// The kind of a store of objects.
#[derive(Clone, Copy, Debug, PartialEq, Eq, Structural)]
pub enum EngineType {
    Memory,
    Hdfs,
    Gcs,
    S3,
    Obs,
    Oss,
    Webhdfs,
    Azblob,
    Fs,
}

/// A store of objects.
pub struct OpendalObjectStore<C> {
    pub op: opendal::Operator,
    pub engine_type: EngineType,
    pub config: C,
}

impl<C> OpendalObjectStore<C> {
    /// The store on a distributed file system that is reached by the given access.
    pub fn on_webhdfs(access: Result<opendal::Operator, opendal::Error>, config: C) -> (res: Result<
        OpendalObjectStore<C>,
        opendal::Error,
    >)
        ensures
            match access {
                Ok(op) => res == Ok::<OpendalObjectStore<C>, opendal::Error>(
                    OpendalObjectStore { op, engine_type: EngineType::Webhdfs, config },
                ),
                Err(e) => res == Err::<OpendalObjectStore<C>, opendal::Error>(e),
            },
    {
        match access {
            Ok(op) => Ok(OpendalObjectStore { op, engine_type: EngineType::Webhdfs, config }),
            Err(e) => Err(e),
        }
    }

    /// Opens a store on a distributed file system, under the given root there. Objects are first written to
    /// the given directory under the root.
    pub fn new_webhdfs_engine(endpoint: String, root: String, write_dir: &str, config: C) -> (res:
        Result<OpendalObjectStore<C>, opendal::Error>)
        ensures
            res matches Ok(store) ==> webhdfs_settings(store.op) == (
                endpoint@,
                root@,
                root@ + "/"@ + write_dir@,
            ) && store.engine_type == EngineType::Webhdfs && store.config == config,
    {
        let settings = WebhdfsSettings::new(endpoint, root, write_dir);
        Self::on_webhdfs(build_operator(&settings), config)
    }
}

} // verus!
