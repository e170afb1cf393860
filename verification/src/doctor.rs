//! The health of an installation.

use crate::text::{concat_three, owned};
use vstd::prelude::*;
use vstd::string::*;

verus! {

#[derive(Debug, Clone, Copy, PartialEq, Eq, Structural)]
pub enum DoctorStatus {
    Healthy,
    Warning,
    Failed,
}

/// What one check found.
#[derive(Debug)]
pub struct DoctorCheck {
    name: &'static str,
    status: DoctorStatus,
    detail: Option<String>,
    remediation: Option<String>,
}

/// What all checks found.
#[derive(Debug)]
pub struct DoctorReport {
    status: DoctorStatus,
    checks: Vec<DoctorCheck>,
}

/// What one check found.
pub struct CheckView {
    pub name: Seq<char>,
    pub status: DoctorStatus,
    pub detail: Option<Seq<char>>,
    pub remediation: Option<Seq<char>>,
}

/// The text of an optional text.
pub open spec fn text_of(text: Option<String>) -> Option<Seq<char>> {
    match text {
        Some(text) => Some(text@),
        None => None,
    }
}

impl View for DoctorCheck {
    type V = CheckView;

    closed spec fn view(&self) -> CheckView {
        CheckView {
            name: self.name@,
            status: self.status,
            detail: text_of(self.detail),
            remediation: text_of(self.remediation),
        }
    }
}

/// What the checks found.
pub open spec fn views(checks: Seq<DoctorCheck>) -> Seq<CheckView> {
    checks.map_values(|check: DoctorCheck| check@)
}

/// Whether a check ended this way.
pub open spec fn has_status(checks: Seq<CheckView>, status: DoctorStatus) -> bool {
    exists|i: int| 0 <= i < checks.len() && (#[trigger] checks[i]).status == status
}

/// The worst that a check found.
pub open spec fn worst(checks: Seq<CheckView>) -> DoctorStatus {
    if has_status(checks, DoctorStatus::Failed) {
        DoctorStatus::Failed
    } else if has_status(checks, DoctorStatus::Warning) {
        DoctorStatus::Warning
    } else {
        DoctorStatus::Healthy
    }
}

/// A check that found nothing wrong.
pub open spec fn fine(name: Seq<char>, detail: Seq<char>) -> CheckView {
    CheckView { name, status: DoctorStatus::Healthy, detail: Some(detail), remediation: None }
}

/// A check that found something to be changed.
pub open spec fn bad(
    name: Seq<char>,
    status: DoctorStatus,
    detail: Seq<char>,
    remediation: Seq<char>,
) -> CheckView {
    CheckView { name, status, detail: Some(detail), remediation: Some(remediation) }
}

/// A check has a detail, and says what to do exactly where something is to be changed.
pub open spec fn says_what_to_do(check: CheckView) -> bool {
    &&& check.detail is Some
    &&& check.remediation is None <==> check.status == DoctorStatus::Healthy
}

impl DoctorStatus {
    /// The word for the status.
    pub open spec fn word(self) -> Seq<char> {
        match self {
            DoctorStatus::Healthy => "ok"@,
            DoctorStatus::Warning => "warning"@,
            DoctorStatus::Failed => "failed"@,
        }
    }

    pub fn as_str(self) -> (text: &'static str)
        ensures
            text@ == self.word(),
    {
        match self {
            DoctorStatus::Healthy => "ok",
            DoctorStatus::Warning => "warning",
            DoctorStatus::Failed => "failed",
        }
    }
}

impl DoctorReport {
    pub closed spec fn overall(&self) -> DoctorStatus {
        self.status
    }

    pub closed spec fn findings(&self) -> Seq<CheckView> {
        views(self.checks@)
    }

    /// The report of checks: it is as bad as the worst of them.
    pub fn new(checks: Vec<DoctorCheck>) -> (report: Self)
        ensures
            report.findings() == views(checks@),
            report.overall() == worst(views(checks@)),
    {
        let status = if any_status(&checks, DoctorStatus::Failed) {
            DoctorStatus::Failed
        } else if any_status(&checks, DoctorStatus::Warning) {
            DoctorStatus::Warning
        } else {
            DoctorStatus::Healthy
        };
        Self { status, checks }
    }

    pub fn status(&self) -> (status: DoctorStatus)
        ensures
            status == self.overall(),
    {
        self.status
    }

    pub fn checks(&self) -> (checks: &Vec<DoctorCheck>)
        ensures
            views(checks@) == self.findings(),
    {
        &self.checks
    }

    /// Whether a check failed.
    pub fn failed(&self) -> (failed: bool)
        ensures
            failed == (self.overall() == DoctorStatus::Failed),
    {
        self.status == DoctorStatus::Failed
    }
}

fn any_status(checks: &Vec<DoctorCheck>, status: DoctorStatus) -> (any: bool)
    ensures
        any == has_status(views(checks@), status),
{
    let ghost seen = views(checks@);
    let mut index: usize = 0;
    while index < checks.len()
        invariant
            seen == views(checks@),
            index <= checks@.len(),
            forall|i: int| 0 <= i < index ==> (#[trigger] seen[i]).status != status,
        decreases checks@.len() - index,
    {
        proof {
            assert(seen[index as int] == checks@[index as int]@);
        }
        if checks[index].status == status {
            return true;
        }
        index = index + 1;
    }
    false
}

impl DoctorCheck {
    #[verifier::type_invariant]
    spec fn inv(self) -> bool {
        says_what_to_do(self@)
    }

    fn ok(name: &'static str, detail: String) -> (check: Self)
        ensures
            check@ == fine(name@, detail@),
    {
        Self { name, status: DoctorStatus::Healthy, detail: Some(detail), remediation: None }
    }

    fn warning(name: &'static str, detail: String, remediation: &str) -> (check: Self)
        ensures
            check@ == bad(name@, DoctorStatus::Warning, detail@, remediation@),
    {
        Self {
            name,
            status: DoctorStatus::Warning,
            detail: Some(detail),
            remediation: Some(owned(remediation)),
        }
    }

    fn failed(name: &'static str, detail: String, remediation: &str) -> (check: Self)
        ensures
            check@ == bad(name@, DoctorStatus::Failed, detail@, remediation@),
    {
        Self {
            name,
            status: DoctorStatus::Failed,
            detail: Some(detail),
            remediation: Some(owned(remediation)),
        }
    }

    pub fn name(&self) -> (name: &'static str)
        ensures
            name@ == self@.name,
    {
        self.name
    }

    pub fn status(&self) -> (status: DoctorStatus)
        ensures
            status == self@.status,
    {
        self.status
    }

    /// What was found. Every check has a detail.
    pub fn detail(&self) -> (detail: Option<&str>)
        ensures
            detail is Some,
            match detail {
                Some(detail) => self@.detail == Some(detail@),
                None => self@.detail is None,
            },
    {
        proof {
            use_type_invariant(self);
        }
        match &self.detail {
            Some(detail) => Some(detail.as_str()),
            None => None,
        }
    }

    /// What to do. A check has this exactly where it is not healthy.
    pub fn remediation(&self) -> (remediation: Option<&str>)
        ensures
            remediation is None <==> self@.status == DoctorStatus::Healthy,
            match remediation {
                Some(remediation) => self@.remediation == Some(remediation@),
                None => self@.remediation is None,
            },
    {
        proof {
            use_type_invariant(self);
        }
        match &self.remediation {
            Some(remediation) => Some(remediation.as_str()),
            None => None,
        }
    }
}

/// How the configuration was found.
#[derive(Debug)]
pub enum ConfigProbe {
    /// There is no place to look for it.
    NoPlace { error: String },
    /// The file that was named was loaded.
    ExplicitLoaded { path: String },
    ExplicitFailed { error: String },
    /// The usual file was loaded, or the defaults where it does not exist.
    DefaultLoaded { path: String, existed: bool },
    DefaultFailed { error: String },
}

/// How the URL of the catalog looks.
#[derive(Debug)]
pub enum CatalogUrlProbe {
    Invalid { error: String },
    /// A provider that is not there.
    OtherProvider { url: String, provider: String },
    Sqlite { url: String },
}

/// How the file of the catalog looks.
#[derive(Debug)]
pub enum CatalogProbe {
    /// The URL names no file.
    NoFile,
    Missing { path: String },
    NotAFile { path: String },
    OpenFailed { path: String, error: String },
    SchemaFailed { path: String, error: String },
    Ready { path: String },
}

/// How a path looks.
#[derive(Debug)]
pub struct PathProbe {
    pub path: String,
    pub exists: bool,
    pub is_dir: bool,
    pub is_file: bool,
    pub parent_is_dir: bool,
    /// The parent can be made in a directory that exists.
    pub parent_creatable: bool,
}

/// Where blobs are stored.
#[derive(Debug)]
pub enum BlobStoreProbe {
    Local,
    S3 { bucket: String },
}

/// The paths of a configuration.
#[derive(Debug)]
pub struct PathProbes {
    pub state_dir: PathProbe,
    pub blob_dir: PathProbe,
    pub wal_dir: PathProbe,
    pub log_file: PathProbe,
    pub blob_store: BlobStoreProbe,
}

/// What a look at the configuration says, and whether there is one to go on with.
pub open spec fn config_finding(probe: ConfigProbe) -> (CheckView, bool) {
    match probe {
        ConfigProbe::NoPlace { error } => (
            bad(
                "config"@,
                DoctorStatus::Failed,
                error@,
                "set HOME or pass --config <path>"@,
            ),
            false,
        ),
        ConfigProbe::ExplicitLoaded { path } => (fine("config"@, "loaded "@ + path@ + ""@), true),
        ConfigProbe::ExplicitFailed { error } => (
            bad(
                "config"@,
                DoctorStatus::Failed,
                error@,
                "create the config or pass a valid --config path"@,
            ),
            false,
        ),
        ConfigProbe::DefaultLoaded { path, existed } => (
            if existed {
                fine("config"@, "loaded "@ + path@ + ""@)
            } else {
                bad(
                    "config"@,
                    DoctorStatus::Warning,
                    ""@ + path@ + " is missing"@,
                    "run `nbd-server config init` or let `nbd-server serve` bootstrap it"@,
                )
            },
            true,
        ),
        ConfigProbe::DefaultFailed { error } => (
            bad(
                "config"@,
                DoctorStatus::Failed,
                error@,
                "fix the config path or default config template"@,
            ),
            false,
        ),
    }
}

/// Checks how the configuration was found. Says whether there is one to go on with.
pub fn check_config(probe: ConfigProbe) -> (result: (DoctorCheck, bool))
    ensures
        (result.0@, result.1) == config_finding(probe),
{
    match probe {
        ConfigProbe::NoPlace { error } => (
            DoctorCheck::failed("config", error, "set HOME or pass --config <path>"),
            false,
        ),
        ConfigProbe::ExplicitLoaded { path } => (
            DoctorCheck::ok("config", concat_three("loaded ", path.as_str(), "")),
            true,
        ),
        ConfigProbe::ExplicitFailed { error } => (
            DoctorCheck::failed(
                "config",
                error,
                "create the config or pass a valid --config path",
            ),
            false,
        ),
        ConfigProbe::DefaultLoaded { path, existed } => {
            if existed {
                (DoctorCheck::ok("config", concat_three("loaded ", path.as_str(), "")), true)
            } else {
                (
                    DoctorCheck::warning(
                        "config",
                        concat_three("", path.as_str(), " is missing"),
                        "run `nbd-server config init` or let `nbd-server serve` bootstrap it",
                    ),
                    true,
                )
            }
        },
        ConfigProbe::DefaultFailed { error } => (
            DoctorCheck::failed("config", error, "fix the config path or default config template"),
            false,
        ),
    }
}

/// What a look at the URL of the catalog says, and whether the catalog can be looked at.
pub open spec fn url_findings(probe: CatalogUrlProbe) -> (Seq<CheckView>, bool) {
    match probe {
        CatalogUrlProbe::Invalid { error } => (
            seq![
                bad(
                    "catalog_url"@,
                    DoctorStatus::Failed,
                    error@,
                    "set catalog.url to a valid file: URL"@,
                ),
            ],
            false,
        ),
        CatalogUrlProbe::OtherProvider { url, provider } => (
            seq![
                fine("catalog_url"@, url@),
                bad(
                    "catalog_provider"@,
                    DoctorStatus::Failed,
                    provider@,
                    "use a file: SQLite catalog URL; Postgres is not implemented"@,
                ),
            ],
            false,
        ),
        CatalogUrlProbe::Sqlite { url } => (
            seq![fine("catalog_url"@, url@), fine("catalog_provider"@, "sqlite"@)],
            true,
        ),
    }
}

/// The checks with some more.
pub open spec fn more(before: Seq<DoctorCheck>, after: Seq<DoctorCheck>, found: Seq<CheckView>) -> bool {
    views(after) =~= views(before) + found
}

/// Adds a check.
fn note(checks: &mut Vec<DoctorCheck>, check: DoctorCheck)
    ensures
        views(final(checks)@) == views(old(checks)@).push(check@),
{
    checks.push(check);
    proof {
        assert(views(checks@) =~= views(old(checks)@).push(check@));
    }
}

/// Checks the URL of the catalog. Says whether the catalog can be looked at.
pub fn check_catalog_url(probe: CatalogUrlProbe, checks: &mut Vec<DoctorCheck>) -> (usable: bool)
    ensures
        more(old(checks)@, final(checks)@, url_findings(probe).0),
        usable == url_findings(probe).1,
{
    match probe {
        CatalogUrlProbe::Invalid { error } => {
            note(
                checks,
                DoctorCheck::failed("catalog_url", error, "set catalog.url to a valid file: URL"),
            );
            false
        },
        CatalogUrlProbe::OtherProvider { url, provider } => {
            note(checks, DoctorCheck::ok("catalog_url", url));
            note(
                checks,
                DoctorCheck::failed(
                    "catalog_provider",
                    provider,
                    "use a file: SQLite catalog URL; Postgres is not implemented",
                ),
            );
            false
        },
        CatalogUrlProbe::Sqlite { url } => {
            note(checks, DoctorCheck::ok("catalog_url", url));
            note(checks, DoctorCheck::ok("catalog_provider", owned("sqlite")));
            true
        },
    }
}

/// What a look at the catalog says.
pub open spec fn catalog_findings(probe: CatalogProbe) -> Seq<CheckView> {
    match probe {
        CatalogProbe::NoFile => Seq::empty(),
        CatalogProbe::Missing { path } => seq![
            bad(
                "catalog_file"@,
                DoctorStatus::Failed,
                ""@ + path@ + " is missing"@,
                "create and migrate the SQLite catalog"@,
            ),
        ],
        CatalogProbe::NotAFile { path } => seq![
            bad(
                "catalog_file"@,
                DoctorStatus::Failed,
                ""@ + path@ + " is not a regular file"@,
                "set catalog.url to a SQLite database file"@,
            ),
        ],
        CatalogProbe::OpenFailed { path, error } => seq![
            fine("catalog_file"@, path@),
            bad(
                "catalog_open"@,
                DoctorStatus::Failed,
                error@,
                "check catalog.url and SQLite file permissions"@,
            ),
        ],
        CatalogProbe::SchemaFailed { path, error } => seq![
            fine("catalog_file"@, path@),
            bad(
                "catalog_schema"@,
                DoctorStatus::Failed,
                error@,
                "apply the catalog migrations"@,
            ),
        ],
        CatalogProbe::Ready { path } => seq![
            fine("catalog_file"@, path@),
            fine("catalog_schema"@, "ready"@),
        ],
    }
}

/// Checks the catalog.
pub fn check_catalog(probe: CatalogProbe, checks: &mut Vec<DoctorCheck>)
    ensures
        more(old(checks)@, final(checks)@, catalog_findings(probe)),
{
    match probe {
        CatalogProbe::NoFile => {},
        CatalogProbe::Missing { path } => {
            note(
                checks,
                DoctorCheck::failed(
                    "catalog_file",
                    concat_three("", path.as_str(), " is missing"),
                    "create and migrate the SQLite catalog",
                ),
            );
        },
        CatalogProbe::NotAFile { path } => {
            note(
                checks,
                DoctorCheck::failed(
                    "catalog_file",
                    concat_three("", path.as_str(), " is not a regular file"),
                    "set catalog.url to a SQLite database file",
                ),
            );
        },
        CatalogProbe::OpenFailed { path, error } => {
            note(checks, DoctorCheck::ok("catalog_file", path));
            note(
                checks,
                DoctorCheck::failed(
                    "catalog_open",
                    error,
                    "check catalog.url and SQLite file permissions",
                ),
            );
        },
        CatalogProbe::SchemaFailed { path, error } => {
            note(checks, DoctorCheck::ok("catalog_file", path));
            note(
                checks,
                DoctorCheck::failed("catalog_schema", error, "apply the catalog migrations"),
            );
        },
        CatalogProbe::Ready { path } => {
            note(checks, DoctorCheck::ok("catalog_file", path));
            note(checks, DoctorCheck::ok("catalog_schema", owned("ready")));
        },
    }
}

/// What a look at the place of a directory says.
pub open spec fn directory_finding(name: Seq<char>, probe: PathProbe) -> CheckView {
    if probe.exists {
        if probe.is_dir {
            fine(name, probe.path@)
        } else {
            bad(
                name,
                DoctorStatus::Failed,
                ""@ + probe.path@ + " is not a directory"@,
                "choose a directory path"@,
            )
        }
    } else if probe.parent_is_dir {
        fine(name, ""@ + probe.path@ + " is missing; parent exists"@)
    } else {
        bad(
            name,
            DoctorStatus::Failed,
            ""@ + probe.path@ + " is missing and parent is not available"@,
            "create the parent directory or choose another path"@,
        )
    }
}

/// Checks the place of a directory.
pub fn check_directory_location(name: &'static str, probe: PathProbe) -> (check: DoctorCheck)
    ensures
        check@ == directory_finding(name@, probe),
{
    if probe.exists {
        if probe.is_dir {
            return DoctorCheck::ok(name, probe.path);
        }
        return DoctorCheck::failed(
            name,
            concat_three("", probe.path.as_str(), " is not a directory"),
            "choose a directory path",
        );
    }
    if probe.parent_is_dir {
        return DoctorCheck::ok(
            name,
            concat_three("", probe.path.as_str(), " is missing; parent exists"),
        );
    }
    DoctorCheck::failed(
        name,
        concat_three("", probe.path.as_str(), " is missing and parent is not available"),
        "create the parent directory or choose another path",
    )
}

/// What a look at the place of a file says.
pub open spec fn file_finding(name: Seq<char>, probe: PathProbe) -> CheckView {
    if probe.exists {
        if probe.is_file {
            fine(name, probe.path@)
        } else {
            bad(
                name,
                DoctorStatus::Failed,
                ""@ + probe.path@ + " is not a regular file"@,
                "choose a file path"@,
            )
        }
    } else if probe.parent_is_dir || probe.parent_creatable {
        fine(name, ""@ + probe.path@ + " is missing; parent can be created"@)
    } else {
        bad(
            name,
            DoctorStatus::Failed,
            ""@ + probe.path@ + " parent is not available"@,
            "create the parent directory or choose another path"@,
        )
    }
}

/// Checks the place of a file.
pub fn check_file_location(name: &'static str, probe: PathProbe) -> (check: DoctorCheck)
    ensures
        check@ == file_finding(name@, probe),
{
    if probe.exists {
        if probe.is_file {
            return DoctorCheck::ok(name, probe.path);
        }
        return DoctorCheck::failed(
            name,
            concat_three("", probe.path.as_str(), " is not a regular file"),
            "choose a file path",
        );
    }
    if probe.parent_is_dir || probe.parent_creatable {
        return DoctorCheck::ok(
            name,
            concat_three("", probe.path.as_str(), " is missing; parent can be created"),
        );
    }
    DoctorCheck::failed(
        name,
        concat_three("", probe.path.as_str(), " parent is not available"),
        "create the parent directory or choose another path",
    )
}

/// What is said of where blobs are stored.
pub open spec fn blob_store_finding(probe: BlobStoreProbe) -> CheckView {
    match probe {
        BlobStoreProbe::Local => fine("blob_store"@, "local"@),
        BlobStoreProbe::S3 { bucket } => fine(
            "blob_store"@,
            "s3 bucket "@ + bucket@ + "; network reachability not checked"@,
        ),
    }
}

/// Says where blobs are stored.
pub fn check_blob_store(probe: BlobStoreProbe) -> (check: DoctorCheck)
    ensures
        check@ == blob_store_finding(probe),
{
    match probe {
        BlobStoreProbe::Local => DoctorCheck::ok("blob_store", owned("local")),
        BlobStoreProbe::S3 { bucket } => DoctorCheck::ok(
            "blob_store",
            concat_three("s3 bucket ", bucket.as_str(), "; network reachability not checked"),
        ),
    }
}

/// What a look at the paths of a configuration says.
pub open spec fn path_findings(probes: PathProbes) -> Seq<CheckView> {
    seq![
        directory_finding("runtime.state_dir"@, probes.state_dir),
        directory_finding("runtime.blob_dir"@, probes.blob_dir),
        directory_finding("runtime.wal_dir"@, probes.wal_dir),
        file_finding("logging.file_path"@, probes.log_file),
        blob_store_finding(probes.blob_store),
    ]
}

/// Checks the paths of a configuration.
pub fn check_configured_paths(probes: PathProbes, checks: &mut Vec<DoctorCheck>)
    ensures
        more(old(checks)@, final(checks)@, path_findings(probes)),
{
    note(checks, check_directory_location("runtime.state_dir", probes.state_dir));
    note(checks, check_directory_location("runtime.blob_dir", probes.blob_dir));
    note(checks, check_directory_location("runtime.wal_dir", probes.wal_dir));
    note(checks, check_file_location("logging.file_path", probes.log_file));
    note(checks, check_blob_store(probes.blob_store));
}

/// All that is looked at, as far as one look allows the next. The catalog is looked at only where
/// its URL can be used.
#[derive(Debug)]
pub struct InstallationProbe {
    pub catalog_url: CatalogUrlProbe,
    pub catalog: CatalogProbe,
    pub paths: PathProbes,
    pub config_path: String,
}

/// All that the checks find, in their order.
pub open spec fn all_findings(config: ConfigProbe, installation: Option<InstallationProbe>) -> Seq<
    CheckView,
> {
    let first = seq![config_finding(config).0];
    match installation {
        Some(probe) if config_finding(config).1 => {
            let (urls, usable) = url_findings(probe.catalog_url);
            if usable {
                first + urls + catalog_findings(probe.catalog) + path_findings(probe.paths) + seq![
                    fine("config_path"@, probe.config_path@),
                ]
            } else {
                first + urls + path_findings(probe.paths)
            }
        },
        _ => first,
    }
}

/// Checks an installation. Without a configuration there is nothing more to look at.
pub fn check(config: ConfigProbe, installation: Option<InstallationProbe>) -> (report: DoctorReport)
    ensures
        report.findings() == all_findings(config, installation),
        report.overall() == worst(all_findings(config, installation)),
{
    let mut checks: Vec<DoctorCheck> = Vec::new();
    let (first, found) = check_config(config);
    checks.push(first);
    proof {
        assert(views(checks@) =~= seq![config_finding(config).0]);
    }
    match installation {
        Some(probe) => {
            if found {
                let usable = check_catalog_url(probe.catalog_url, &mut checks);
                if usable {
                    check_catalog(probe.catalog, &mut checks);
                    check_configured_paths(probe.paths, &mut checks);
                    note(&mut checks, DoctorCheck::ok("config_path", probe.config_path));
                } else {
                    check_configured_paths(probe.paths, &mut checks);
                }
            }
        },
        None => {},
    }
    proof {
        assert(views(checks@) =~= all_findings(config, installation));
    }
    DoctorReport::new(checks)
}

/// Each of the checks has a detail, and a remediation exactly where it is not healthy.
pub open spec fn all_say_what_to_do(checks: Seq<CheckView>) -> bool {
    forall|i: int| 0 <= i < checks.len() ==> says_what_to_do(#[trigger] checks[i])
}

/// The looks at the catalog and the paths say what to do.
proof fn lemma_installation_findings(probe: InstallationProbe)
    ensures
        all_say_what_to_do(url_findings(probe.catalog_url).0),
        all_say_what_to_do(catalog_findings(probe.catalog)),
        all_say_what_to_do(path_findings(probe.paths)),
{
    assert(says_what_to_do(directory_finding("runtime.state_dir"@, probe.paths.state_dir)));
    assert(says_what_to_do(directory_finding("runtime.blob_dir"@, probe.paths.blob_dir)));
    assert(says_what_to_do(directory_finding("runtime.wal_dir"@, probe.paths.wal_dir)));
    assert(says_what_to_do(file_finding("logging.file_path"@, probe.paths.log_file)));
    assert(says_what_to_do(blob_store_finding(probe.paths.blob_store)));
}

/// Checks after checks.
proof fn lemma_more_findings(first: Seq<CheckView>, second: Seq<CheckView>)
    requires
        all_say_what_to_do(first),
        all_say_what_to_do(second),
    ensures
        all_say_what_to_do(first + second),
{
    let both = first + second;
    assert forall|i: int| 0 <= i < both.len() implies says_what_to_do(#[trigger] both[i]) by {
        if i < first.len() {
            assert(both[i] == first[i]);
        } else {
            assert(both[i] == second[i - first.len()]);
        }
    }
}

/// Whatever is found, each check of a report has a detail, and a remediation exactly where it is not
/// healthy.
pub proof fn law_findings_say_what_to_do(
    config: ConfigProbe,
    installation: Option<InstallationProbe>,
)
    ensures
        all_say_what_to_do(all_findings(config, installation)),
{
    let first = seq![config_finding(config).0];
    assert(says_what_to_do(config_finding(config).0));
    assert(all_say_what_to_do(first));
    match installation {
        Some(probe) => {
            let urls = url_findings(probe.catalog_url).0;
            let catalog = catalog_findings(probe.catalog);
            let paths = path_findings(probe.paths);
            let place = seq![fine("config_path"@, probe.config_path@)];
            lemma_installation_findings(probe);
            assert(all_say_what_to_do(place));
            lemma_more_findings(first, urls);
            lemma_more_findings(first + urls, paths);
            lemma_more_findings(first + urls, catalog);
            lemma_more_findings(first + urls + catalog, paths);
            lemma_more_findings(first + urls + catalog + paths, place);
        },
        None => {},
    }
}

/// A report is as bad as its worst finding: failed exactly when a finding failed, and healthy
/// exactly when every finding is.
pub proof fn law_report_is_as_bad_as_its_worst_finding(checks: Seq<CheckView>)
    ensures
        worst(checks) == DoctorStatus::Failed <==> exists|i: int|
            0 <= i < checks.len() && (#[trigger] checks[i]).status == DoctorStatus::Failed,
        worst(checks) == DoctorStatus::Healthy <==> forall|i: int|
            0 <= i < checks.len() ==> (#[trigger] checks[i]).status == DoctorStatus::Healthy,
{
    if worst(checks) == DoctorStatus::Healthy {
        assert forall|i: int| 0 <= i < checks.len() implies (#[trigger] checks[i]).status
            == DoctorStatus::Healthy by {
            if checks[i].status == DoctorStatus::Failed {
                assert(has_status(checks, DoctorStatus::Failed));
            }
            if checks[i].status == DoctorStatus::Warning {
                assert(has_status(checks, DoctorStatus::Warning));
            }
        }
    }
}

/// A place for a directory is fine exactly when it is one, or is missing where it can be made; one
/// for a file likewise.
pub proof fn law_places_are_fine_where_they_can_be_used(name: Seq<char>, probe: PathProbe)
    ensures
        directory_finding(name, probe).name == name,
        file_finding(name, probe).name == name,
        directory_finding(name, probe).status == (if (probe.exists && probe.is_dir) || (
        !probe.exists && probe.parent_is_dir) {
            DoctorStatus::Healthy
        } else {
            DoctorStatus::Failed
        }),
        file_finding(name, probe).status == (if (probe.exists && probe.is_file) || (!probe.exists
            && (probe.parent_is_dir || probe.parent_creatable)) {
            DoctorStatus::Healthy
        } else {
            DoctorStatus::Failed
        }),
{
}

/// The configuration is usable exactly when it could be loaded, and is fine unless the default one
/// is missing, which is only a warning.
pub proof fn law_a_loaded_configuration_is_usable(probe: ConfigProbe)
    ensures
        config_finding(probe).1 <==> probe is ExplicitLoaded || probe is DefaultLoaded,
        config_finding(probe).0.name == "config"@,
        config_finding(probe).0.status == (match probe {
            ConfigProbe::ExplicitLoaded { .. } => DoctorStatus::Healthy,
            ConfigProbe::DefaultLoaded { existed, .. } => if existed {
                DoctorStatus::Healthy
            } else {
                DoctorStatus::Warning
            },
            _ => DoctorStatus::Failed,
        }),
{
}

/// The catalog is looked into exactly when its address is one of a database file, and everything
/// about it is fine exactly when it is ready.
pub proof fn law_only_a_ready_catalog_is_fine(url: CatalogUrlProbe, catalog: CatalogProbe)
    ensures
        url_findings(url).1 <==> url is Sqlite,
        worst(url_findings(url).0) == (if url is Sqlite {
            DoctorStatus::Healthy
        } else {
            DoctorStatus::Failed
        }),
        worst(catalog_findings(catalog)) == (if catalog is Ready || catalog is NoFile {
            DoctorStatus::Healthy
        } else {
            DoctorStatus::Failed
        }),
{
    let found = url_findings(url).0;
    let about = catalog_findings(catalog);
    law_report_is_as_bad_as_its_worst_finding(found);
    law_report_is_as_bad_as_its_worst_finding(about);
    if !(url is Sqlite) {
        assert(found[found.len() - 1].status == DoctorStatus::Failed);
    }
    if !(catalog is Ready || catalog is NoFile) {
        assert(about[about.len() - 1].status == DoctorStatus::Failed);
    }
}

/// An installation is healthy exactly when its configuration was there and loaded, its catalog is a
/// database file that is ready, and every place it uses can be used; a configuration that cannot be
/// loaded leaves nothing else to look at.
pub proof fn law_healthy_is_what_can_be_served(
    config: ConfigProbe,
    installation: Option<InstallationProbe>,
)
    ensures
        !config_finding(config).1 || installation is None ==> all_findings(
            config,
            installation,
        ).len() == 1,
        config_finding(config).1 && installation is Some ==> {
            let probe = installation->0;
            worst(all_findings(config, installation)) == DoctorStatus::Healthy <==> {
                &&& config_finding(config).0.status == DoctorStatus::Healthy
                &&& probe.catalog_url is Sqlite
                &&& probe.catalog is Ready || probe.catalog is NoFile
                &&& worst(path_findings(probe.paths)) == DoctorStatus::Healthy
            }
        },
{
    if config_finding(config).1 && installation is Some {
        let probe = installation->0;
        let all = all_findings(config, installation);
        let first = seq![config_finding(config).0];
        let (urls, usable) = url_findings(probe.catalog_url);
        let about = catalog_findings(probe.catalog);
        let paths = path_findings(probe.paths);
        law_only_a_ready_catalog_is_fine(probe.catalog_url, probe.catalog);
        law_report_is_as_bad_as_its_worst_finding(all);
        law_report_is_as_bad_as_its_worst_finding(urls);
        law_report_is_as_bad_as_its_worst_finding(about);
        law_report_is_as_bad_as_its_worst_finding(paths);
        assert(all[0] == first[0]);
        assert forall|i: int| 0 <= i < urls.len() implies all[1 + i] == #[trigger] urls[i] by {}
        if usable {
            assert forall|i: int| 0 <= i < about.len() implies all[1 + urls.len() + i]
                == #[trigger] about[i] by {}
            assert forall|i: int| 0 <= i < paths.len() implies all[1 + urls.len() + about.len() + i]
                == #[trigger] paths[i] by {}
            if worst(all) == DoctorStatus::Healthy {
                assert forall|i: int| 0 <= i < about.len() implies (#[trigger] about[i]).status
                    == DoctorStatus::Healthy by {
                    assert(all[1 + urls.len() + i].status == DoctorStatus::Healthy);
                }
                assert forall|i: int| 0 <= i < paths.len() implies (#[trigger] paths[i]).status
                    == DoctorStatus::Healthy by {
                    assert(all[1 + urls.len() + about.len() + i].status == DoctorStatus::Healthy);
                }
            } else {
                let i = choose|i: int|
                    0 <= i < all.len() && (#[trigger] all[i]).status != DoctorStatus::Healthy;
                if i == 0 {
                } else if i < 1 + urls.len() {
                    assert(urls[i - 1] == all[i]);
                } else if i < 1 + urls.len() + about.len() {
                    assert(about[i - 1 - urls.len()] == all[i]);
                } else if i < 1 + urls.len() + about.len() + paths.len() {
                    assert(paths[i - 1 - urls.len() - about.len()] == all[i]);
                }
            }
        } else if worst(all) == DoctorStatus::Healthy {
            assert forall|i: int| 0 <= i < urls.len() implies (#[trigger] urls[i]).status
                == DoctorStatus::Healthy by {
                assert(all[1 + i].status == DoctorStatus::Healthy);
            }
        }
    }
}

/// Every place that the server uses is looked at, and all of them are fine exactly when the three
/// directories and the log file are.
pub proof fn law_every_place_is_looked_at(probes: PathProbes)
    ensures
        path_findings(probes).len() == 5,
        worst(path_findings(probes)) == DoctorStatus::Healthy <==> {
            &&& directory_finding("runtime.state_dir"@, probes.state_dir).status
                == DoctorStatus::Healthy
            &&& directory_finding("runtime.blob_dir"@, probes.blob_dir).status
                == DoctorStatus::Healthy
            &&& directory_finding("runtime.wal_dir"@, probes.wal_dir).status
                == DoctorStatus::Healthy
            &&& file_finding("logging.file_path"@, probes.log_file).status == DoctorStatus::Healthy
        },
        blob_store_finding(probes.blob_store).status == DoctorStatus::Healthy,
{
    let found = path_findings(probes);
    law_report_is_as_bad_as_its_worst_finding(found);
    assert(found[0] == directory_finding("runtime.state_dir"@, probes.state_dir));
    assert(found[1] == directory_finding("runtime.blob_dir"@, probes.blob_dir));
    assert(found[2] == directory_finding("runtime.wal_dir"@, probes.wal_dir));
    assert(found[3] == file_finding("logging.file_path"@, probes.log_file));
    assert(found[4] == blob_store_finding(probes.blob_store));
}

} // verus!
