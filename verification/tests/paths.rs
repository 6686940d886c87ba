use photo_core::paths::{is_absolute, join_path, Paths, PathsError, DUMPS_VAR, LIBRARY_VAR};
use photo_core::APP_ID;
use std::collections::HashMap;
use std::path::PathBuf;

fn env(pairs: &[(&str, &str)]) -> impl Fn(&str) -> Option<String> {
    let map: HashMap<String, String> = pairs.iter().map(|(k, v)| (k.to_string(), v.to_string())).collect();
    move |key: &str| map.get(key).cloned()
}

fn resolve(pairs: &[(&str, &str)]) -> Result<Paths, PathsError> {
    Paths::resolve(env(pairs), |_: &str| true)
}

#[test]
fn falls_back_to_the_xdg_defaults_below_home() {
    let paths = resolve(&[("HOME", "/home/someone")]).unwrap();
    assert_eq!(
        PathBuf::from(paths.cache_db()),
        PathBuf::from("/home/someone/.cache").join(APP_ID).join("cache.db")
    );
    assert_eq!(
        PathBuf::from(paths.app_db()),
        PathBuf::from("/home/someone/.local/share").join(APP_ID).join("app.db")
    );
    assert_eq!(paths.library(), "/home/someone/Nextcloud/Photos");
}

#[test]
fn honours_the_xdg_variables() {
    let paths = resolve(&[
        ("HOME", "/home/someone"),
        ("XDG_CACHE_HOME", "/tmp/c"),
        ("XDG_DATA_HOME", "/tmp/d"),
    ])
    .unwrap();
    assert_eq!(PathBuf::from(paths.cache_dir()), PathBuf::from("/tmp/c").join(APP_ID));
    assert_eq!(PathBuf::from(paths.data_dir()), PathBuf::from("/tmp/d").join(APP_ID));
}

#[test]
fn ignores_empty_and_relative_xdg_variables() {
    let paths = resolve(&[
        ("HOME", "/home/someone"),
        ("XDG_CACHE_HOME", "  "),
        ("XDG_DATA_HOME", "relative/share"),
    ])
    .unwrap();
    assert_eq!(
        PathBuf::from(paths.cache_dir()),
        PathBuf::from("/home/someone/.cache").join(APP_ID)
    );
    assert_eq!(
        PathBuf::from(paths.data_dir()),
        PathBuf::from("/home/someone/.local/share").join(APP_ID)
    );
}

#[test]
fn the_library_variable_wins() {
    let paths = resolve(&[("HOME", "/home/someone"), (LIBRARY_VAR, "/tmp/fixture")]).unwrap();
    assert_eq!(paths.library(), "/tmp/fixture");
}

#[test]
fn refuses_a_relative_library() {
    let err = resolve(&[("HOME", "/home/someone"), (LIBRARY_VAR, "fixture")]).unwrap_err();
    assert_eq!(err, PathsError::RelativeLibrary("fixture".to_string()));
}

#[test]
fn refuses_a_missing_library_and_never_creates_one() {
    let missing = PathBuf::from("/tmp/photomanager-does-not-exist");
    let err = Paths::resolve(
        env(&[
            ("HOME", "/home/someone"),
            (LIBRARY_VAR, "/tmp/photomanager-does-not-exist"),
        ]),
        |_: &str| false,
    )
    .unwrap_err();
    assert_eq!(
        err,
        PathsError::LibraryMissing("/tmp/photomanager-does-not-exist".to_string())
    );
    assert!(!missing.exists());
}

#[test]
fn a_release_does_not_ask_for_the_library() {
    let there = |development: bool| {
        Paths::resolve_for(development, env(&[("HOME", "/home/someone"), (LIBRARY_VAR, "/media/photos")]), |_: &str| false)
    };
    assert_eq!(there(false).unwrap().library(), "/media/photos");
    assert_eq!(there(true).unwrap_err(), PathsError::LibraryMissing("/media/photos".to_string()));
}

#[test]
fn dumps_on_this_machine_are_used_instead_of_a_download() {
    let paths = resolve(&[("HOME", "/home/someone")]).unwrap();
    assert_eq!(paths.local_dumps(), None);
    assert_eq!(
        PathBuf::from(paths.dumps_dir()),
        PathBuf::from("/home/someone/.cache").join(APP_ID).join("geonames")
    );

    let given = resolve(&[("HOME", "/home/someone"), (DUMPS_VAR, "/tmp/geonames")]).unwrap();
    assert_eq!(given.local_dumps(), Some(&"/tmp/geonames".to_string()));

    let relative = resolve(&[("HOME", "/home/someone"), (DUMPS_VAR, "geonames")]).unwrap();
    assert_eq!(relative.local_dumps(), None, "only an absolute path is taken");
}

#[test]
fn needs_a_home() {
    assert_eq!(resolve(&[]).unwrap_err(), PathsError::NoHome);
}

#[test]
fn a_redirected_environment_resolves_nothing_in_the_real_library() {
    let real_home = "/home/someone";
    let paths = resolve(&[
        ("HOME", "/tmp/pm-test-home"),
        ("XDG_CACHE_HOME", "/tmp/pm-test-home/cache"),
        ("XDG_DATA_HOME", "/tmp/pm-test-home/data"),
        (LIBRARY_VAR, "/tmp/pm-test-home/library"),
    ])
    .unwrap();
    for path in paths.all() {
        assert!(path.starts_with("/tmp/pm-test-home"), "{path} escapes the test home");
        assert!(!path.starts_with(real_home), "{path} points into the real home");
    }
}

#[test]
fn paths_are_joined_as_the_system_joins_them() {
    for (path, more) in [("/a", "b"), ("/a/", "b/c"), ("/", "b"), ("/a", "/b"), ("", "b")] {
        assert_eq!(PathBuf::from(join_path(path, more)), PathBuf::from(path).join(more));
    }
    assert!(is_absolute("/a"));
    assert!(!is_absolute("a/b"));
    assert!(!is_absolute(""));
}

#[test]
fn an_error_says_what_to_do() {
    let errors = [
        PathsError::NoHome,
        PathsError::RelativeLibrary("x".to_string()),
        PathsError::LibraryMissing("/x".to_string()),
    ];
    for error in &errors {
        assert!(!error.to_string().is_empty());
    }
    assert!(errors[1].to_string().contains('x'));
    assert!(errors[2].to_string().contains("/x"));
}
