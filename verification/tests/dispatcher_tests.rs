use checker_positions::BackendCapabilities;
use checker_positions::ConfigError;
use checker_positions::JniSource;
use checker_positions::LanguageTool;
use checker_positions::RemoteServer;

fn all_capabilities() -> BackendCapabilities {
    BackendCapabilities { bundle_jar: true, extern_jar: true, remote_server: true }
}

fn no_capabilities() -> BackendCapabilities {
    BackendCapabilities { bundle_jar: false, extern_jar: false, remote_server: false }
}

#[test]
fn exactly_one_selection_succeeds() {
    let caps = all_capabilities();
    let host = String::from("localhost");
    let port = String::from("8081");
    let jar = String::from("engine.jar");

    let remote = LanguageTool::new(&caps, false, None, Some(&host), Some(&port));
    assert_eq!(
        remote.unwrap(),
        LanguageTool::Remote(RemoteServer {
            host: String::from("localhost"),
            port: String::from("8081"),
        })
    );

    let bundled = LanguageTool::new(&caps, true, None, None, None);
    assert_eq!(bundled.unwrap(), LanguageTool::JNI(JniSource::Bundled));

    let external = LanguageTool::new(&caps, false, Some(&jar), None, None);
    assert_eq!(
        external.unwrap(),
        LanguageTool::JNI(JniSource::Jar(String::from("engine.jar")))
    );
}

#[test]
fn zero_or_multiple_selections_fail() {
    let caps = all_capabilities();
    let host = String::from("localhost");
    let port = String::from("8081");
    let jar = String::from("engine.jar");

    let none = LanguageTool::new(&caps, false, None, None, None);
    assert_eq!(none.unwrap_err(), ConfigError::InvalidSelection);

    let bundled_and_jar = LanguageTool::new(&caps, true, Some(&jar), None, None);
    assert_eq!(bundled_and_jar.unwrap_err(), ConfigError::InvalidSelection);

    let jar_and_remote = LanguageTool::new(&caps, false, Some(&jar), Some(&host), Some(&port));
    assert_eq!(jar_and_remote.unwrap_err(), ConfigError::InvalidSelection);

    let host_without_port = LanguageTool::new(&caps, false, None, Some(&host), None);
    assert_eq!(host_without_port.unwrap_err(), ConfigError::InvalidSelection);
}

#[test]
fn missing_capability_fails() {
    let caps = no_capabilities();
    let host = String::from("localhost");
    let port = String::from("8081");
    let jar = String::from("engine.jar");

    let remote = LanguageTool::new(&caps, false, None, Some(&host), Some(&port));
    assert_eq!(remote.unwrap_err(), ConfigError::RemoteSupportMissing);

    let bundled = LanguageTool::new(&caps, true, None, None, None);
    assert_eq!(bundled.unwrap_err(), ConfigError::BundledSupportMissing);

    let external = LanguageTool::new(&caps, false, Some(&jar), None, None);
    assert_eq!(external.unwrap_err(), ConfigError::JarSupportMissing);
}

#[test]
fn external_jar_capability_alone_allows_a_path() {
    let caps = BackendCapabilities { bundle_jar: false, extern_jar: true, remote_server: false };
    let jar = String::from("engine.jar");
    let external = LanguageTool::new(&caps, false, Some(&jar), None, None);
    assert!(matches!(external, Ok(LanguageTool::JNI(JniSource::Jar(_)))));
    let bundled = LanguageTool::new(&caps, true, None, None, None);
    assert_eq!(bundled.unwrap_err(), ConfigError::BundledSupportMissing);
}

#[test]
fn config_error_messages() {
    assert_eq!(
        ConfigError::InvalidSelection.message(),
        "Exactly one of 'bundled', 'jar_location' or 'host and port' must be specified."
    );
    assert_eq!(
        ConfigError::RemoteSupportMissing.message(),
        "Support for a remote server is disabled."
    );
    assert_eq!(
        ConfigError::BundledSupportMissing.message(),
        "Support for the bundled engine is disabled."
    );
    assert_eq!(
        ConfigError::JarSupportMissing.message(),
        "Support for a local engine is disabled."
    );
}
