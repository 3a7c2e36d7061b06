//! Selects exactly one concrete checker backend from mutually exclusive
//! configuration, and the capability interface every backend must satisfy.
//! Which backends a build actually ships is a runtime capability set here;
//! the clients that talk to a live engine are external collaborators.

use vstd::prelude::*;

use crate::suggestion::Suggestion;

verus! {

/// A failure reported by a checker backend while performing a capability
/// call; opaque to this layer.
#[derive(Debug, Clone)]
pub struct BackendError {
    pub message: String,
}

/// The capability set any grammar-checking backend must satisfy. Implemented
/// by the external backend clients; nothing is assumed here about their
/// behaviour.
pub trait LanguageToolBackend {
    fn allow_words(&mut self, lang: String, words: &[String]) -> Result<(), BackendError>;

    fn disable_checks(&mut self, lang: String, checks: &[String]) -> Result<(), BackendError>;

    fn check_text(&mut self, lang: String, text: &str) -> Result<Vec<Suggestion>, BackendError>;
}

/// Which backend kinds this build can actually construct.
#[derive(Debug, Clone, Copy)]
pub struct BackendCapabilities {
    pub bundle_jar: bool,
    pub extern_jar: bool,
    pub remote_server: bool,
}

/// Where a locally bridged engine comes from: the bundled archive or an
/// explicit path.
#[derive(Debug, Clone, PartialEq, Eq)]
pub enum JniSource {
    Bundled,
    Jar(String),
}

/// Address of a remote checking server.
#[derive(Debug, Clone, PartialEq, Eq)]
pub struct RemoteServer {
    pub host: String,
    pub port: String,
}

/// A configuration error: ambiguous or incomplete backend selection, or a
/// selection whose support this build lacks. Raised at construction, fatal
/// to that attempt.
#[derive(Debug, Clone, Copy, PartialEq, Eq, Structural)]
pub enum ConfigError {
    RemoteSupportMissing,
    BundledSupportMissing,
    JarSupportMissing,
    InvalidSelection,
}

impl ConfigError {
    pub fn message(&self) -> (r: String)
        ensures
            self is RemoteSupportMissing ==> r@ == "Support for a remote server is disabled."@,
            self is BundledSupportMissing ==> r@ == "Support for the bundled engine is disabled."@,
            self is JarSupportMissing ==> r@ == "Support for a local engine is disabled."@,
            self is InvalidSelection ==> r@
                == "Exactly one of 'bundled', 'jar_location' or 'host and port' must be specified."@,
    {
        match self {
            ConfigError::RemoteSupportMissing => "Support for a remote server is disabled.".to_owned(),
            ConfigError::BundledSupportMissing => "Support for the bundled engine is disabled.".to_owned(),
            ConfigError::JarSupportMissing => "Support for a local engine is disabled.".to_owned(),
            ConfigError::InvalidSelection => "Exactly one of 'bundled', 'jar_location' or 'host and port' must be specified.".to_owned(),
        }
    }
}

/// The selected backend of one dispatcher: an in-process bridge to a locally
/// hosted engine, or a remote network client.
#[derive(Debug, Clone, PartialEq, Eq)]
pub enum LanguageTool {
    JNI(JniSource),
    Remote(RemoteServer),
}

impl LanguageTool {
    /// Selects the backend from four mutually exclusive configuration
    /// shapes: bundled engine, engine at an explicit path, remote host plus
    /// port, or none of these. Fails when no shape or more than one is
    /// given, and when the selected shape needs a capability this build
    /// lacks.
    pub fn new(
        capabilities: &BackendCapabilities,
        bundled: bool,
        jar_location: Option<&String>,
        host: Option<&String>,
        port: Option<&String>,
    ) -> (r: Result<LanguageTool, ConfigError>)
        ensures
            ({
                let sel_remote = !bundled && jar_location is None && host is Some && port is Some;
                let sel_bundled = bundled && jar_location is None && host is None && port is None;
                let sel_jar = !bundled && jar_location is Some && host is None && port is None;
                &&& (sel_remote && capabilities.remote_server ==> (r matches Ok(lt) && lt matches
                    LanguageTool::Remote(rs) && rs.host == *host->0 && rs.port == *port->0))
                &&& (sel_remote && !capabilities.remote_server ==> r == Err::<
                    LanguageTool,
                    ConfigError,
                >(ConfigError::RemoteSupportMissing))
                &&& (sel_bundled && capabilities.bundle_jar ==> r == Ok::<LanguageTool, ConfigError>(
                    LanguageTool::JNI(JniSource::Bundled),
                ))
                &&& (sel_bundled && !capabilities.bundle_jar ==> r == Err::<
                    LanguageTool,
                    ConfigError,
                >(ConfigError::BundledSupportMissing))
                &&& (sel_jar && (capabilities.bundle_jar || capabilities.extern_jar) ==> (r matches
                    Ok(lt) && lt matches LanguageTool::JNI(js) && js matches JniSource::Jar(p) && p
                    == *jar_location->0))
                &&& (sel_jar && !capabilities.bundle_jar && !capabilities.extern_jar ==> r == Err::<
                    LanguageTool,
                    ConfigError,
                >(ConfigError::JarSupportMissing))
                &&& (!sel_remote && !sel_bundled && !sel_jar ==> r == Err::<
                    LanguageTool,
                    ConfigError,
                >(ConfigError::InvalidSelection))
            }),
    {
        match (bundled, jar_location, host, port) {
            (false, None, Some(h), Some(p)) => {
                if capabilities.remote_server {
                    Ok(LanguageTool::Remote(RemoteServer { host: h.clone(), port: p.clone() }))
                } else {
                    Err(ConfigError::RemoteSupportMissing)
                }
            },
            (true, None, None, None) => {
                if capabilities.bundle_jar {
                    Ok(LanguageTool::JNI(JniSource::Bundled))
                } else {
                    Err(ConfigError::BundledSupportMissing)
                }
            },
            (false, Some(path), None, None) => {
                if capabilities.bundle_jar || capabilities.extern_jar {
                    Ok(LanguageTool::JNI(JniSource::Jar(path.clone())))
                } else {
                    Err(ConfigError::JarSupportMissing)
                }
            },
            _ => Err(ConfigError::InvalidSelection),
        }
    }
}

} // verus!
