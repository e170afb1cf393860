use nbd_server::cli::{ConfigAction, ConfigArgs, ConfigCommand, DoctorArgs};
use nbd_server::doctor::{
    check, BlobStoreProbe, CatalogProbe, CatalogUrlProbe, ConfigProbe, DoctorCheck, DoctorReport,
    DoctorStatus, InstallationProbe, PathProbe, PathProbes,
};

fn text(text: &str) -> String {
    text.to_string()
}

fn directory(path: &str) -> PathProbe {
    PathProbe {
        path: text(path),
        exists: true,
        is_dir: true,
        is_file: false,
        parent_is_dir: true,
        parent_creatable: true,
    }
}

fn missing(path: &str, parent_is_dir: bool, parent_creatable: bool) -> PathProbe {
    PathProbe {
        path: text(path),
        exists: false,
        is_dir: false,
        is_file: false,
        parent_is_dir,
        parent_creatable,
    }
}

fn paths() -> PathProbes {
    PathProbes {
        state_dir: directory("/state"),
        blob_dir: missing("/state/blobs", true, true),
        wal_dir: directory("/state/wal"),
        log_file: missing("/state/log/server.log", false, true),
        blob_store: BlobStoreProbe::Local,
    }
}

fn installation(catalog_url: CatalogUrlProbe, catalog: CatalogProbe) -> InstallationProbe {
    InstallationProbe {
        catalog_url,
        catalog,
        paths: paths(),
        config_path: text("/etc/nbd.toml"),
    }
}

fn sqlite() -> CatalogUrlProbe {
    CatalogUrlProbe::Sqlite {
        url: text("file:/state/catalog.db"),
    }
}

fn loaded() -> ConfigProbe {
    ConfigProbe::ExplicitLoaded {
        path: text("/etc/nbd.toml"),
    }
}

fn names(report: &DoctorReport) -> Vec<&'static str> {
    report.checks().iter().map(DoctorCheck::name).collect()
}

fn find<'a>(report: &'a DoctorReport, name: &str) -> &'a DoctorCheck {
    report
        .checks()
        .iter()
        .find(|check| check.name() == name)
        .expect("check")
}

#[test]
fn a_healthy_installation_passes_every_check() {
    let ready = CatalogProbe::Ready {
        path: text("/state/catalog.db"),
    };
    let report = check(loaded(), Some(installation(sqlite(), ready)));
    assert_eq!(report.status(), DoctorStatus::Healthy);
    assert!(!report.failed());
    assert_eq!(
        names(&report),
        vec![
            "config",
            "catalog_url",
            "catalog_provider",
            "catalog_file",
            "catalog_schema",
            "runtime.state_dir",
            "runtime.blob_dir",
            "runtime.wal_dir",
            "logging.file_path",
            "blob_store",
            "config_path",
        ]
    );
    assert_eq!(
        find(&report, "config").detail(),
        Some("loaded /etc/nbd.toml")
    );
    assert_eq!(
        find(&report, "runtime.blob_dir").detail(),
        Some("/state/blobs is missing; parent exists")
    );
    assert_eq!(
        find(&report, "logging.file_path").detail(),
        Some("/state/log/server.log is missing; parent can be created")
    );
    assert_eq!(find(&report, "blob_store").remediation(), None);
}

#[test]
fn the_worst_check_decides() {
    let ready = || CatalogProbe::Ready {
        path: text("/state/catalog.db"),
    };
    let bootstrapped = ConfigProbe::DefaultLoaded {
        path: text("/home/nbd.toml"),
        existed: false,
    };
    let report = check(bootstrapped, Some(installation(sqlite(), ready())));
    assert_eq!(report.status(), DoctorStatus::Warning);
    assert_eq!(
        find(&report, "config").detail(),
        Some("/home/nbd.toml is missing")
    );

    let mut broken = installation(sqlite(), ready());
    broken.paths.wal_dir = missing("/lost/wal", false, false);
    broken.paths.log_file = missing("/lost/a/server.log", false, false);
    broken.paths.blob_store = BlobStoreProbe::S3 {
        bucket: text("blobs"),
    };
    let report = check(loaded(), Some(broken));
    assert!(report.failed());
    assert_eq!(
        find(&report, "runtime.wal_dir").detail(),
        Some("/lost/wal is missing and parent is not available")
    );
    assert_eq!(
        find(&report, "logging.file_path").detail(),
        Some("/lost/a/server.log parent is not available")
    );
    assert_eq!(
        find(&report, "blob_store").detail(),
        Some("s3 bucket blobs; network reachability not checked")
    );
}

#[test]
fn without_a_configuration_nothing_more_is_checked() {
    for probe in [
        ConfigProbe::NoPlace {
            error: text("HOME is not set"),
        },
        ConfigProbe::ExplicitFailed {
            error: text("no such file"),
        },
        ConfigProbe::DefaultFailed {
            error: text("bad template"),
        },
    ] {
        let report = check(probe, None);
        assert_eq!(names(&report), vec!["config"]);
        assert_eq!(report.status(), DoctorStatus::Failed);
        assert!(report.checks()[0].remediation().is_some());
    }
}

#[test]
fn an_unusable_catalog_url_leaves_the_catalog_out() {
    let invalid = CatalogUrlProbe::Invalid {
        error: text("not a URL"),
    };
    let report = check(loaded(), Some(installation(invalid, CatalogProbe::NoFile)));
    assert_eq!(names(&report).len(), 7);
    assert_eq!(find(&report, "catalog_url").detail(), Some("not a URL"));
    let other = CatalogUrlProbe::OtherProvider {
        url: text("postgres://host"),
        provider: text("Postgres"),
    };
    let report = check(loaded(), Some(installation(other, CatalogProbe::NoFile)));
    assert_eq!(find(&report, "catalog_provider").detail(), Some("Postgres"));
    assert!(!names(&report).contains(&"config_path"));
}

#[test]
fn catalog_trouble_is_named() {
    let path = || text("/state/catalog.db");
    for (probe, name, detail) in [
        (
            CatalogProbe::Missing { path: path() },
            "catalog_file",
            "/state/catalog.db is missing",
        ),
        (
            CatalogProbe::NotAFile { path: path() },
            "catalog_file",
            "/state/catalog.db is not a regular file",
        ),
        (
            CatalogProbe::OpenFailed {
                path: path(),
                error: text("locked"),
            },
            "catalog_open",
            "locked",
        ),
        (
            CatalogProbe::SchemaFailed {
                path: path(),
                error: text("no table"),
            },
            "catalog_schema",
            "no table",
        ),
    ] {
        let report = check(loaded(), Some(installation(sqlite(), probe)));
        assert!(report.failed());
        assert_eq!(find(&report, name).status(), DoctorStatus::Failed);
        assert_eq!(find(&report, name).detail(), Some(detail));
    }
}

#[test]
fn statuses_have_names() {
    assert_eq!(DoctorStatus::Healthy.as_str(), "ok");
    assert_eq!(DoctorStatus::Warning.as_str(), "warning");
    assert_eq!(DoctorStatus::Failed.as_str(), "failed");
}

#[test]
fn config_arguments_make_one_command() {
    let args = |path, action| ConfigArgs { path, action };
    assert!(matches!(
        args(false, None).command(),
        Ok(ConfigCommand::Print)
    ));
    assert!(matches!(
        args(true, None).command(),
        Ok(ConfigCommand::PrintPath)
    ));
    assert!(matches!(
        args(false, Some(ConfigAction::Init)).command(),
        Ok(ConfigCommand::Initialize)
    ));
    assert!(matches!(
        args(
            false,
            Some(ConfigAction::Get {
                key: text("server.export_queue_depth")
            })
        )
        .command(),
        Ok(ConfigCommand::PrintValue { key }) if key == "server.export_queue_depth"
    ));
    assert_eq!(
        args(true, Some(ConfigAction::Init)).command().unwrap_err(),
        "config --path cannot be combined with a subcommand"
    );
    assert!(DoctorArgs { json: true }.json);
}

#[test]
fn checks_say_what_to_do_exactly_where_they_are_not_healthy() {
    let reports = [
        check(loaded(), Some(installation(sqlite(), CatalogProbe::NoFile))),
        check(
            loaded(),
            Some(installation(
                sqlite(),
                CatalogProbe::Missing {
                    path: text("/state/catalog.db"),
                },
            )),
        ),
        check(
            ConfigProbe::NoPlace {
                error: text("no home"),
            },
            None,
        ),
    ];
    for report in &reports {
        for found in report.checks() {
            assert!(found.detail().is_some());
            assert_eq!(
                found.remediation().is_none(),
                found.status() == DoctorStatus::Healthy
            );
        }
    }
    assert!(reports[2].checks()[0].remediation().is_some());
}
