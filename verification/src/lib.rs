//! Reconciles two coordinate spaces over one text: character indices (as a
//! grammar checker reports them) and UTF-8 byte offsets (as the source text
//! stores them), and aggregates checker suggestions into per-file diagnostics
//! located by byte ranges in the original source.

pub mod cursor;
pub mod window;
pub mod suggestion;
pub mod mapping;
pub mod collector;
pub mod dispatcher;

pub use cursor::StringCursor;
pub use window::Position;
pub use window::TextWithPosition;
pub use suggestion::Diagnostic;
pub use suggestion::SourceRange;
pub use suggestion::Suggestion;
pub use mapping::MappedSpan;
pub use mapping::Mapping;
pub use collector::FileCollector;
pub use dispatcher::BackendCapabilities;
pub use dispatcher::BackendError;
pub use dispatcher::ConfigError;
pub use dispatcher::JniSource;
pub use dispatcher::LanguageTool;
pub use dispatcher::LanguageToolBackend;
pub use dispatcher::RemoteServer;
