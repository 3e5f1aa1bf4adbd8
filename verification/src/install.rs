//! Bringing the adapter to the machine: each step names one piece of outside
//! work, and what comes of that work decides the next step.
use vstd::prelude::*;
use vstd::string::*;

use crate::extension;
use crate::extension::adapter_asset_name;
use crate::extension::sanitize_path_component;
use crate::extension::Architecture;
use crate::extension::Os;
use crate::text;

verus! {

/// A file that a release offers.
pub struct Asset {
    pub name: String,
    pub download_url: String,
}

/// The latest release of the adapter.
pub struct Release {
    pub version: String,
    pub assets: Vec<Asset>,
}

/// Where the adapter of one release comes from and where it belongs.
pub struct Installation {
    /// The release that offers the adapter.
    pub version: String,
    /// The archive that holds the adapter.
    pub asset_name: String,
    pub download_url: String,
    /// The directory that the archive is unpacked into.
    pub directory: String,
    /// The executable inside that directory.
    pub path: String,
    /// Whether the executable has to be marked as such.
    pub needs_permission: bool,
}

/// A piece of outside work, or the end.
pub enum Step {
    /// Find out whether the adapter that was used last is still a file.
    CheckCache { path: String },
    /// Ask for the latest release.
    FetchRelease { asset_name: &'static str },
    /// Find out whether the adapter is a file already.
    CheckAdapter(Installation),
    /// Find out whether the directory exists.
    CheckDirectory(Installation),
    /// Remove the directory and all it holds.
    RemoveDirectory(Installation),
    /// Download the archive and unpack it into the directory.
    Download(Installation),
    /// Find out whether the adapter is a file now.
    CheckDownloaded(Installation),
    /// Mark the adapter as executable.
    MakeExecutable(Installation),
    /// The path of the adapter, or why there is none.
    Done(Result<String, String>),
}

/// What came of a piece of outside work.
pub enum Event {
    /// The answer of a check.
    Present(bool),
    /// The release, or why it could not be had.
    Fetched(Result<Release, String>),
    /// The work was done, or why it failed.
    Finished(Result<(), String>),
}

pub ghost struct AssetModel {
    pub name: Seq<char>,
    pub download_url: Seq<char>,
}

pub ghost struct ReleaseModel {
    pub version: Seq<char>,
    pub assets: Seq<AssetModel>,
}

pub ghost struct InstallationModel {
    pub version: Seq<char>,
    pub asset_name: Seq<char>,
    pub download_url: Seq<char>,
    pub directory: Seq<char>,
    pub path: Seq<char>,
    pub needs_permission: bool,
}

pub ghost enum StepModel {
    CheckCache { path: Seq<char> },
    FetchRelease { asset_name: Seq<char> },
    CheckAdapter(InstallationModel),
    CheckDirectory(InstallationModel),
    RemoveDirectory(InstallationModel),
    Download(InstallationModel),
    CheckDownloaded(InstallationModel),
    MakeExecutable(InstallationModel),
    Done(Result<Seq<char>, Seq<char>>),
}

pub ghost enum EventModel {
    Present(bool),
    Fetched(Result<ReleaseModel, Seq<char>>),
    Finished(Result<(), Seq<char>>),
}

impl View for Asset {
    type V = AssetModel;

    open spec fn view(&self) -> AssetModel {
        AssetModel { name: self.name@, download_url: self.download_url@ }
    }
}

impl View for Release {
    type V = ReleaseModel;

    open spec fn view(&self) -> ReleaseModel {
        ReleaseModel {
            version: self.version@,
            assets: Seq::new(self.assets@.len(), |i: int| self.assets@[i]@),
        }
    }
}

impl View for Installation {
    type V = InstallationModel;

    open spec fn view(&self) -> InstallationModel {
        InstallationModel {
            version: self.version@,
            asset_name: self.asset_name@,
            download_url: self.download_url@,
            directory: self.directory@,
            path: self.path@,
            needs_permission: self.needs_permission,
        }
    }
}

impl View for Step {
    type V = StepModel;

    open spec fn view(&self) -> StepModel {
        match *self {
            Step::CheckCache { path } => StepModel::CheckCache { path: path@ },
            Step::FetchRelease { asset_name } => StepModel::FetchRelease {
                asset_name: asset_name@,
            },
            Step::CheckAdapter(installation) => StepModel::CheckAdapter(installation@),
            Step::CheckDirectory(installation) => StepModel::CheckDirectory(installation@),
            Step::RemoveDirectory(installation) => StepModel::RemoveDirectory(installation@),
            Step::Download(installation) => StepModel::Download(installation@),
            Step::CheckDownloaded(installation) => StepModel::CheckDownloaded(installation@),
            Step::MakeExecutable(installation) => StepModel::MakeExecutable(installation@),
            Step::Done(Ok(path)) => StepModel::Done(Ok(path@)),
            Step::Done(Err(message)) => StepModel::Done(Err(message@)),
        }
    }
}

impl View for Event {
    type V = EventModel;

    open spec fn view(&self) -> EventModel {
        match *self {
            Event::Present(present) => EventModel::Present(present),
            Event::Fetched(Ok(release)) => EventModel::Fetched(Ok(release@)),
            Event::Fetched(Err(message)) => EventModel::Fetched(Err(message@)),
            Event::Finished(Ok(_)) => EventModel::Finished(Ok(())),
            Event::Finished(Err(message)) => EventModel::Finished(Err(message@)),
        }
    }
}

/// The first asset of that name.
pub open spec fn asset_named(assets: Seq<AssetModel>, name: Seq<char>) -> Option<AssetModel>
    decreases assets.len(),
{
    if assets.len() == 0 {
        None
    } else if assets[0].name == name {
        Some(assets[0])
    } else {
        asset_named(assets.skip(1), name)
    }
}

/// The directory of a release.
pub open spec fn installation_directory(version: Seq<char>) -> Seq<char> {
    "language_servers/tool4d-lsp-stdio-"@ + extension::sanitized(version)
}

/// The adapter inside the directory of a release.
pub open spec fn adapter_path(os: Os, version: Seq<char>) -> Seq<char> {
    installation_directory(version) + "/tool4d-lsp-stdio/"@ + (if os == Os::Windows {
        "tool4d-lsp-stdio.exe"@
    } else {
        "tool4d-lsp-stdio"@
    })
}

pub open spec fn installation_of(os: Os, version: Seq<char>, asset: AssetModel) -> InstallationModel {
    InstallationModel {
        version,
        asset_name: asset.name,
        download_url: asset.download_url,
        directory: installation_directory(version),
        path: adapter_path(os, version),
        needs_permission: os != Os::Windows,
    }
}

pub open spec fn missing_asset(version: Seq<char>, asset_name: Seq<char>) -> Seq<char> {
    "release "@ + version
        + " of miyako/language-4dm-zed does not contain the required adapter asset "@ + asset_name
}

pub open spec fn removal_failed(directory: Seq<char>, error: Seq<char>) -> Seq<char> {
    "failed to remove incomplete adapter directory "@ + directory + ": "@ + error
}

pub open spec fn download_failed(asset_name: Seq<char>, error: Seq<char>) -> Seq<char> {
    "failed to download adapter asset "@ + asset_name + ": "@ + error
}

pub open spec fn executable_missing(asset_name: Seq<char>, path: Seq<char>) -> Seq<char> {
    "adapter archive "@ + asset_name
        + " was downloaded, but the expected executable was not found at "@ + path
}

pub open spec fn permission_failed(path: Seq<char>, error: Seq<char>) -> Seq<char> {
    "failed to make adapter executable at "@ + path + ": "@ + error
}

/// The first step for a machine where no adapter was used before.
pub open spec fn search(os: Os, architecture: Architecture) -> StepModel {
    match extension::asset_name(os, architecture) {
        Some(asset_name) => StepModel::FetchRelease { asset_name },
        None => StepModel::Done(Err(extension::unavailable(os, architecture))),
    }
}

/// The first step.
pub open spec fn first(
    cached: Option<Seq<char>>,
    os: Os,
    architecture: Architecture,
) -> StepModel {
    match cached {
        Some(path) => StepModel::CheckCache { path },
        None => search(os, architecture),
    }
}

/// The step after the release was fetched.
pub open spec fn offered(os: Os, asset_name: Seq<char>, release: ReleaseModel) -> StepModel {
    match asset_named(release.assets, asset_name) {
        Some(asset) => StepModel::CheckAdapter(installation_of(os, release.version, asset)),
        None => StepModel::Done(Err(missing_asset(release.version, asset_name))),
    }
}

/// The step after the adapter was found to be a file.
pub open spec fn found(installation: InstallationModel) -> StepModel {
    if installation.needs_permission {
        StepModel::MakeExecutable(installation)
    } else {
        StepModel::Done(Ok(installation.path))
    }
}

/// The event is one that the work of this step can bring.
pub open spec fn fits(step: StepModel, event: EventModel) -> bool {
    match step {
        StepModel::CheckCache { .. } => event is Present,
        StepModel::FetchRelease { .. } => event is Fetched,
        StepModel::CheckAdapter(_) => event is Present,
        StepModel::CheckDirectory(_) => event is Present,
        StepModel::RemoveDirectory(_) => event is Finished,
        StepModel::Download(_) => event is Finished,
        StepModel::CheckDownloaded(_) => event is Present,
        StepModel::MakeExecutable(_) => event is Finished,
        StepModel::Done(_) => false,
    }
}

/// The step that follows.
pub open spec fn next(
    step: StepModel,
    event: EventModel,
    os: Os,
    architecture: Architecture,
) -> StepModel {
    match (step, event) {
        (StepModel::CheckCache { path }, EventModel::Present(present)) => if present {
            StepModel::Done(Ok(path))
        } else {
            search(os, architecture)
        },
        (StepModel::FetchRelease { asset_name }, EventModel::Fetched(Ok(release))) => offered(
            os,
            asset_name,
            release,
        ),
        (StepModel::FetchRelease { .. }, EventModel::Fetched(Err(error))) => StepModel::Done(
            Err(error),
        ),
        (StepModel::CheckAdapter(installation), EventModel::Present(present)) => if present {
            found(installation)
        } else {
            StepModel::CheckDirectory(installation)
        },
        (StepModel::CheckDirectory(installation), EventModel::Present(present)) => if present {
            StepModel::RemoveDirectory(installation)
        } else {
            StepModel::Download(installation)
        },
        (StepModel::RemoveDirectory(installation), EventModel::Finished(Ok(_))) => StepModel::Download(
            installation,
        ),
        (StepModel::RemoveDirectory(installation), EventModel::Finished(Err(error))) => StepModel::Done(
            Err(removal_failed(installation.directory, error)),
        ),
        (StepModel::Download(installation), EventModel::Finished(Ok(_))) => StepModel::CheckDownloaded(
            installation,
        ),
        (StepModel::Download(installation), EventModel::Finished(Err(error))) => StepModel::Done(
            Err(download_failed(installation.asset_name, error)),
        ),
        (StepModel::CheckDownloaded(installation), EventModel::Present(present)) => if present {
            found(installation)
        } else {
            StepModel::Done(Err(executable_missing(installation.asset_name, installation.path)))
        },
        (StepModel::MakeExecutable(installation), EventModel::Finished(Ok(_))) => StepModel::Done(
            Ok(installation.path),
        ),
        (StepModel::MakeExecutable(installation), EventModel::Finished(Err(error))) => StepModel::Done(
            Err(permission_failed(installation.path, error)),
        ),
        _ => step,
    }
}

/// How many events a step is away from the end, at most.
pub open spec fn distance(step: StepModel) -> nat {
    match step {
        StepModel::CheckCache { .. } => 8,
        StepModel::FetchRelease { .. } => 7,
        StepModel::CheckAdapter(_) => 6,
        StepModel::CheckDirectory(_) => 5,
        StepModel::RemoveDirectory(_) => 4,
        StepModel::Download(_) => 3,
        StepModel::CheckDownloaded(_) => 2,
        StepModel::MakeExecutable(_) => 1,
        StepModel::Done(_) => 0,
    }
}

/// The step after several events.
pub open spec fn run(
    step: StepModel,
    events: Seq<EventModel>,
    os: Os,
    architecture: Architecture,
) -> StepModel
    decreases events.len(),
{
    if events.len() == 0 {
        step
    } else {
        next(run(step, events.drop_last(), os, architecture), events.last(), os, architecture)
    }
}

/// Each event is one that the work of its step can bring.
pub open spec fn is_run(
    step: StepModel,
    events: Seq<EventModel>,
    os: Os,
    architecture: Architecture,
) -> bool
    decreases events.len(),
{
    events.len() > 0 ==> {
        &&& is_run(step, events.drop_last(), os, architecture)
        &&& fits(run(step, events.drop_last(), os, architecture), events.last())
    }
}

/// Every event brings the end nearer: the work is over after eight events at
/// the latest, whatever they are.
pub proof fn installing_ends(
    cached: Option<Seq<char>>,
    events: Seq<EventModel>,
    os: Os,
    architecture: Architecture,
)
    requires
        is_run(first(cached, os, architecture), events, os, architecture),
    ensures
        events.len() + distance(run(first(cached, os, architecture), events, os, architecture))
            <= 8,
    decreases events.len(),
{
    if events.len() > 0 {
        installing_ends(cached, events.drop_last(), os, architecture);
    }
}

/// What the extension keeps after one request for the adapter.
pub open spec fn remembered(
    cached: Option<Seq<char>>,
    result: Result<Seq<char>, Seq<char>>,
) -> Option<Seq<char>> {
    match result {
        Ok(path) => Some(path),
        Err(_) => cached,
    }
}

/// An adapter that was handed out and is still a file is handed out again:
/// nothing else is done.
pub proof fn a_remembered_adapter_is_used_again(
    cached: Option<Seq<char>>,
    path: Seq<char>,
    os: Os,
    architecture: Architecture,
)
    ensures
        next(
            first(remembered(cached, Ok(path)), os, architecture),
            EventModel::Present(true),
            os,
            architecture,
        ) == StepModel::Done(Ok(path)),
{
}

/// A failure does not make the extension forget the adapter that it handed out
/// last.
pub proof fn a_failure_forgets_nothing(cached: Option<Seq<char>>, message: Seq<char>, path: Seq<char>)
    ensures
        remembered(cached, Err(message)) == cached,
        remembered(cached, Ok(path)) == Some(path),
{
}

/// An adapter that is a file already is not downloaded again, and its
/// directory is left alone.
pub proof fn a_present_adapter_is_not_downloaded(
    installation: InstallationModel,
    events: Seq<EventModel>,
    os: Os,
    architecture: Architecture,
)
    requires
        events.len() > 0,
        events[0] == EventModel::Present(true),
        is_run(StepModel::CheckAdapter(installation), events, os, architecture),
    ensures
        run(StepModel::CheckAdapter(installation), events, os, architecture) is MakeExecutable
            || run(StepModel::CheckAdapter(installation), events, os, architecture) is Done,
    decreases events.len(),
{
    if events.len() > 1 {
        assert(events.drop_last()[0] == events[0]);
        a_present_adapter_is_not_downloaded(installation, events.drop_last(), os, architecture);
    } else {
        assert(run(StepModel::CheckAdapter(installation), events.drop_last(), os, architecture)
            == StepModel::CheckAdapter(installation));
    }
}

/// The event shows that there is a file at the path.
pub open spec fn shows(step: StepModel, event: EventModel, path: Seq<char>) -> bool {
    &&& event == EventModel::Present(true)
    &&& match step {
        StepModel::CheckCache { path: checked } => checked == path,
        StepModel::CheckAdapter(installation) => installation.path == path,
        StepModel::CheckDownloaded(installation) => installation.path == path,
        _ => false,
    }
}

/// One of the events showed that there is a file at the path.
pub open spec fn seen(
    step: StepModel,
    events: Seq<EventModel>,
    os: Os,
    architecture: Architecture,
    path: Seq<char>,
) -> bool {
    exists|i: int|
        0 <= i < events.len() && shows(
            run(step, #[trigger] events.take(i), os, architecture),
            events[i],
            path,
        )
}

proof fn lemma_seen_last(
    step: StepModel,
    events: Seq<EventModel>,
    os: Os,
    architecture: Architecture,
    path: Seq<char>,
)
    requires
        events.len() > 0,
        shows(run(step, events.drop_last(), os, architecture), events.last(), path),
    ensures
        seen(step, events, os, architecture, path),
{
    let last = events.len() - 1;
    assert(events.take(last) =~= events.drop_last());
}

/// Only an adapter that was seen to be a file is handed out: the cached one at
/// its check, or the one of the release at one of its two checks.
pub proof fn a_result_was_seen(
    cached: Option<Seq<char>>,
    events: Seq<EventModel>,
    os: Os,
    architecture: Architecture,
    path: Seq<char>,
)
    requires
        is_run(first(cached, os, architecture), events, os, architecture),
        run(first(cached, os, architecture), events, os, architecture) == StepModel::Done(Ok(path)),
    ensures
        seen(first(cached, os, architecture), events, os, architecture, path),
{
    let start = first(cached, os, architecture);
    let earlier = events.drop_last();
    reveal_with_fuel(is_run, 2);
    reveal_with_fuel(run, 2);
    if run(start, earlier, os, architecture) is MakeExecutable {
        lemma_seen_last(start, earlier, os, architecture, path);
        let i = choose|i: int|
            0 <= i < earlier.len() && shows(
                run(start, #[trigger] earlier.take(i), os, architecture),
                earlier[i],
                path,
            );
        assert(events.take(i) =~= earlier.take(i));
    } else {
        lemma_seen_last(start, events, os, architecture, path);
    }
}

/// Only an incomplete directory is removed: one that was just seen to exist,
/// after its adapter was seen to be missing.
pub proof fn only_an_incomplete_directory_is_removed(
    cached: Option<Seq<char>>,
    events: Seq<EventModel>,
    os: Os,
    architecture: Architecture,
    installation: InstallationModel,
)
    requires
        is_run(first(cached, os, architecture), events, os, architecture),
        run(first(cached, os, architecture), events, os, architecture)
            == StepModel::RemoveDirectory(installation),
    ensures
        events.len() >= 2,
        events.last() == EventModel::Present(true),
        events.drop_last().last() == EventModel::Present(false),
        run(
            first(cached, os, architecture),
            events.drop_last().drop_last(),
            os,
            architecture,
        ) == StepModel::CheckAdapter(installation),
{
    reveal_with_fuel(run, 3);
    reveal_with_fuel(is_run, 3);
}

/// Whatever a release calls itself, its directory is one component below
/// `language_servers`.
pub proof fn a_directory_has_a_safe_name(version: Seq<char>)
    ensures
        installation_directory(version).take(34) == "language_servers/tool4d-lsp-stdio-"@,
        forall|i: int|
            34 <= i < installation_directory(version).len() ==> extension::is_safe(
                #[trigger] installation_directory(version)[i],
            ),
{
    reveal_strlit("language_servers/tool4d-lsp-stdio-");
    extension::sanitizing_is_idempotent(version);
    let directory = installation_directory(version);
    assert(directory.take(34) =~= "language_servers/tool4d-lsp-stdio-"@);
    assert forall|i: int| 34 <= i < directory.len() implies extension::is_safe(
        #[trigger] directory[i],
    ) by {
        assert(directory[i] == extension::sanitized(version)[i - 34]);
    }
}

/// What the adapter of a release is installed as: the archive's own name and
/// address, a directory named after the release, and the executable in it. A
/// program on Windows ends in `.exe`; elsewhere it needs permission to run.
pub open spec fn is_installation_of(
    installation: InstallationModel,
    os: Os,
    version: Seq<char>,
    asset: AssetModel,
) -> bool {
    &&& installation.version == version
    &&& installation.asset_name == asset.name
    &&& installation.download_url == asset.download_url
    &&& installation.directory.len() == 34 + version.len()
    &&& installation.directory.take(34) == "language_servers/tool4d-lsp-stdio-"@
    &&& forall|i: int|
        #![trigger version[i]]
        0 <= i < version.len() ==> {
            let c = version[i];
            installation.directory[34 + i] == (if ('a' <= c && c <= 'z') || ('A' <= c && c <= 'Z')
                || ('0' <= c && c <= '9') || c == '-' || c == '_' || c == '.' {
                c
            } else {
                '_'
            })
        }
    &&& installation.path == installation.directory + "/tool4d-lsp-stdio/tool4d-lsp-stdio"@ + (
    if os == Os::Windows {
        ".exe"@
    } else {
        ""@
    })
    &&& installation.needs_permission == (os != Os::Windows)
}

proof fn lemma_installation(os: Os, version: Seq<char>, asset: AssetModel)
    ensures
        is_installation_of(installation_of(os, version, asset), os, version, asset),
{
    reveal_strlit("language_servers/tool4d-lsp-stdio-");
    reveal_strlit("/tool4d-lsp-stdio/");
    reveal_strlit("/tool4d-lsp-stdio/tool4d-lsp-stdio");
    reveal_strlit("tool4d-lsp-stdio.exe");
    reveal_strlit("tool4d-lsp-stdio");
    reveal_strlit(".exe");
    reveal_strlit("");
    let installation = installation_of(os, version, asset);
    a_directory_has_a_safe_name(version);
    assert forall|i: int|
        #![trigger version[i]]
        0 <= i < version.len() implies {
        let c = version[i];
        installation.directory[34 + i] == (if ('a' <= c && c <= 'z') || ('A' <= c && c <= 'Z')
            || ('0' <= c && c <= '9') || c == '-' || c == '_' || c == '.' {
            c
        } else {
            '_'
        })
    } by {
        extension::sanitizing_goes_by_character(version, i);
        assert(installation.directory[34 + i] == extension::sanitized(version)[i]);
    }
    assert(installation.path =~= installation.directory + "/tool4d-lsp-stdio/tool4d-lsp-stdio"@ + (
    if os == Os::Windows {
        ".exe"@
    } else {
        ""@
    }));
}

/// Of a release, the first asset of the wanted name is installed, wherever it
/// stands among the others.
pub proof fn the_first_asset_of_the_name_is_installed(
    release: ReleaseModel,
    asset_name: Seq<char>,
    k: int,
    os: Os,
    architecture: Architecture,
)
    requires
        0 <= k < release.assets.len(),
        release.assets[k].name == asset_name,
        forall|j: int| 0 <= j < k ==> (#[trigger] release.assets[j]).name != asset_name,
    ensures
        ({
            let step = next(
                StepModel::FetchRelease { asset_name },
                EventModel::Fetched(Ok(release)),
                os,
                architecture,
            );
            step matches StepModel::CheckAdapter(installation) && is_installation_of(
                installation,
                os,
                release.version,
                release.assets[k],
            )
        }),
{
    lemma_asset_at(release.assets, asset_name, k);
    lemma_installation(os, release.version, release.assets[k]);
}

proof fn lemma_asset_at(assets: Seq<AssetModel>, name: Seq<char>, k: int)
    requires
        0 <= k < assets.len(),
        assets[k].name == name,
        forall|j: int| 0 <= j < k ==> (#[trigger] assets[j]).name != name,
    ensures
        asset_named(assets, name) == Some(assets[k]),
    decreases k,
{
    if k > 0 {
        assert(assets[0].name != name);
        let rest = assets.skip(1);
        assert forall|j: int| 0 <= j < k - 1 implies (#[trigger] rest[j]).name != name by {
            assert(rest[j] == assets[j + 1]);
        }
        lemma_asset_at(rest, name, k - 1);
    }
}

/// A release is refused only where none of its assets has the wanted name.
pub proof fn a_release_without_the_asset_is_refused(
    release: ReleaseModel,
    asset_name: Seq<char>,
    os: Os,
    architecture: Architecture,
)
    requires
        forall|j: int|
            0 <= j < release.assets.len() ==> (#[trigger] release.assets[j]).name != asset_name,
    ensures
        next(
            StepModel::FetchRelease { asset_name },
            EventModel::Fetched(Ok(release)),
            os,
            architecture,
        ) == StepModel::Done(
            Err(
                "release "@ + release.version
                    + " of miyako/language-4dm-zed does not contain the required adapter asset "@
                    + asset_name,
            ),
        ),
{
    lemma_no_asset(release.assets, asset_name);
}

proof fn lemma_no_asset(assets: Seq<AssetModel>, name: Seq<char>)
    requires
        forall|j: int| 0 <= j < assets.len() ==> (#[trigger] assets[j]).name != name,
    ensures
        asset_named(assets, name) is None,
    decreases assets.len(),
{
    if assets.len() > 0 {
        assert(assets[0].name != name);
        let rest = assets.skip(1);
        assert forall|j: int| 0 <= j < rest.len() implies (#[trigger] rest[j]).name != name by {
            assert(rest[j] == assets[j + 1]);
        }
        lemma_no_asset(rest, name);
    }
}

/// A missing adapter is downloaded anew, into a directory from which whatever
/// was there has been removed; a present one is only given permission where it
/// needs it. What is installed stays the same on the way.
pub proof fn a_missing_adapter_is_downloaded(
    installation: InstallationModel,
    os: Os,
    architecture: Architecture,
)
    ensures
        next(
            StepModel::CheckAdapter(installation),
            EventModel::Present(false),
            os,
            architecture,
        ) == StepModel::CheckDirectory(installation),
        next(
            StepModel::CheckDirectory(installation),
            EventModel::Present(true),
            os,
            architecture,
        ) == StepModel::RemoveDirectory(installation),
        next(
            StepModel::CheckDirectory(installation),
            EventModel::Present(false),
            os,
            architecture,
        ) == StepModel::Download(installation),
        next(
            StepModel::RemoveDirectory(installation),
            EventModel::Finished(Ok(())),
            os,
            architecture,
        ) == StepModel::Download(installation),
        next(
            StepModel::Download(installation),
            EventModel::Finished(Ok(())),
            os,
            architecture,
        ) == StepModel::CheckDownloaded(installation),
        forall|checked: StepModel|
            checked == StepModel::CheckAdapter(installation) || checked
                == StepModel::CheckDownloaded(installation) ==> #[trigger] next(
                checked,
                EventModel::Present(true),
                os,
                architecture,
            ) == (if installation.needs_permission {
                StepModel::MakeExecutable(installation)
            } else {
                StepModel::Done(Ok(installation.path))
            }),
{
}

/// What the outside work would bring, step by step.
pub ghost struct World {
    pub cached_is_file: bool,
    pub release: Result<ReleaseModel, Seq<char>>,
    pub adapter_is_file: bool,
    pub directory_exists: bool,
    pub removal: Result<(), Seq<char>>,
    pub download: Result<(), Seq<char>>,
    pub adapter_is_file_then: bool,
    pub permission: Result<(), Seq<char>>,
}

impl World {
    pub open spec fn event(self, step: StepModel) -> EventModel {
        match step {
            StepModel::CheckCache { .. } => EventModel::Present(self.cached_is_file),
            StepModel::FetchRelease { .. } => EventModel::Fetched(self.release),
            StepModel::CheckAdapter(_) => EventModel::Present(self.adapter_is_file),
            StepModel::CheckDirectory(_) => EventModel::Present(self.directory_exists),
            StepModel::RemoveDirectory(_) => EventModel::Finished(self.removal),
            StepModel::Download(_) => EventModel::Finished(self.download),
            StepModel::CheckDownloaded(_) => EventModel::Present(self.adapter_is_file_then),
            StepModel::MakeExecutable(_) => EventModel::Finished(self.permission),
            StepModel::Done(_) => EventModel::Present(false),
        }
    }

    /// Where the work stands after some of its steps.
    pub open spec fn after(
        self,
        step: StepModel,
        steps: nat,
        os: Os,
        architecture: Architecture,
    ) -> StepModel
        decreases steps,
    {
        if steps == 0 || step is Done {
            step
        } else {
            self.after(
                next(step, self.event(step), os, architecture),
                (steps - 1) as nat,
                os,
                architecture,
            )
        }
    }
}

/// How the whole work ends, from what the outside work brings: the path of the
/// adapter, or the first complaint.
pub proof fn the_outcome_of_the_work(
    world: World,
    cached: Option<Seq<char>>,
    asset: AssetModel,
    os: Os,
    architecture: Architecture,
    k: int,
)
    requires
        os != Os::Linux && architecture != Architecture::X86,
        world.release matches Ok(release) ==> 0 <= k < release.assets.len() && asset
            == release.assets[k] && extension::asset_name(os, architecture) == Some(asset.name)
            && forall|j: int|
            0 <= j < k ==> (#[trigger] release.assets[j]).name != asset.name,
    ensures
        world.after(first(cached, os, architecture), 8, os, architecture) is Done,
        ({
            let outcome = world.after(
                first(cached, os, architecture),
                8,
                os,
                architecture,
            )->Done_0;
            &&& cached is Some && world.cached_is_file ==> outcome == Ok::<Seq<char>, Seq<char>>(
                cached->Some_0,
            )
            &&& !(cached is Some && world.cached_is_file) ==> match world.release {
                Err(error) => outcome == Err::<Seq<char>, Seq<char>>(error),
                Ok(release) => exists|installation: InstallationModel|
                    #[trigger] is_installation_of(installation, os, release.version, asset)
                        && outcome == (if !world.adapter_is_file && world.directory_exists
                        && world.removal is Err {
                        Err::<Seq<char>, Seq<char>>(
                            "failed to remove incomplete adapter directory "@
                                + installation.directory + ": "@ + world.removal->Err_0,
                        )
                    } else if !world.adapter_is_file && world.download is Err {
                        Err(
                            "failed to download adapter asset "@ + asset.name + ": "@
                                + world.download->Err_0,
                        )
                    } else if !world.adapter_is_file && !world.adapter_is_file_then {
                        Err(
                            "adapter archive "@ + asset.name
                                + " was downloaded, but the expected executable was not found at "@
                                + installation.path,
                        )
                    } else if os != Os::Windows && world.permission is Err {
                        Err(
                            "failed to make adapter executable at "@ + installation.path + ": "@
                                + world.permission->Err_0,
                        )
                    } else {
                        Ok(installation.path)
                    }),
            }
        }),
{
    extension::an_archive_is_named_after_its_platform(os, architecture);
    reveal_with_fuel(World::after, 9);
    if let Ok(release) = world.release {
        lemma_asset_at(release.assets, asset.name, k);
        lemma_installation(os, release.version, asset);
        assert(is_installation_of(
            installation_of(os, release.version, asset),
            os,
            release.version,
            asset,
        ));
    }
}

/// The work begins with the adapter that was handed out last; without one, or
/// when it is gone, with the release, on a platform that has an archive, and
/// with a complaint on any other.
pub proof fn the_work_begins_with_the_cache(path: Seq<char>, os: Os, architecture: Architecture)
    ensures
        first(Some(path), os, architecture) == (StepModel::CheckCache { path }),
        next(
            StepModel::CheckCache { path },
            EventModel::Present(false),
            os,
            architecture,
        ) == first(None, os, architecture),
        os == Os::Linux || architecture == Architecture::X86 ==> first(None, os, architecture)
            == StepModel::Done(Err(extension::unavailable(os, architecture))),
        os != Os::Linux && architecture != Architecture::X86 ==> (first(
            None,
            os,
            architecture,
        ) matches StepModel::FetchRelease { asset_name } && Some(asset_name)
            == extension::asset_name(os, architecture)),
{
    extension::an_archive_is_named_after_its_platform(os, architecture);
}

/// Steps and events are seen as they are, with every text in full.
pub proof fn steps_are_seen_as_they_are(step: Step, event: Event, extension: FourDExtension)
    ensures
        match step {
            Step::CheckCache { path } => step@ == (StepModel::CheckCache { path: path@ }),
            Step::FetchRelease { asset_name } => step@ == (StepModel::FetchRelease {
                asset_name: asset_name@,
            }),
            Step::CheckAdapter(work) => step@ == StepModel::CheckAdapter(work@),
            Step::CheckDirectory(work) => step@ == StepModel::CheckDirectory(work@),
            Step::RemoveDirectory(work) => step@ == StepModel::RemoveDirectory(work@),
            Step::Download(work) => step@ == StepModel::Download(work@),
            Step::CheckDownloaded(work) => step@ == StepModel::CheckDownloaded(work@),
            Step::MakeExecutable(work) => step@ == StepModel::MakeExecutable(work@),
            Step::Done(Ok(path)) => step@ == StepModel::Done(Ok(path@)),
            Step::Done(Err(message)) => step@ == StepModel::Done(Err(message@)),
        },
        match event {
            Event::Present(present) => event@ == EventModel::Present(present),
            Event::Fetched(Ok(release)) => event@ == EventModel::Fetched(Ok(release@)),
            Event::Fetched(Err(message)) => event@ == EventModel::Fetched(Err(message@)),
            Event::Finished(Ok(_)) => event@ == EventModel::Finished(Ok(())),
            Event::Finished(Err(message)) => event@ == EventModel::Finished(Err(message@)),
        },
        extension.cached_adapter_path matches Some(path) ==> extension@ == Some(path@),
        extension.cached_adapter_path is None ==> extension@ is None,
{
}

/// Releases and installations are seen as they are, with every text in full.
pub proof fn releases_are_seen_as_they_are(release: Release, installation: Installation)
    ensures
        release@.version == release.version@,
        release@.assets.len() == release.assets@.len(),
        forall|i: int|
            0 <= i < release.assets@.len() ==> (#[trigger] release@.assets[i]).name
                == release.assets@[i].name@ && release@.assets[i].download_url
                == release.assets@[i].download_url@,
        installation@.version == installation.version@,
        installation@.asset_name == installation.asset_name@,
        installation@.download_url == installation.download_url@,
        installation@.directory == installation.directory@,
        installation@.path == installation.path@,
        installation@.needs_permission == installation.needs_permission,
{
}

/// Joins four texts.
fn message(a: &str, b: &str, c: &str, d: &str) -> (result: String)
    ensures
        result@ == a@ + b@ + c@ + d@,
{
    let mut result = a.to_owned();
    result.append(b);
    result.append(c);
    result.append(d);
    result
}

/// Finds the place of the first asset of that name.
fn find_asset(assets: &Vec<Asset>, name: &str) -> (found: Option<usize>)
    ensures
        match found {
            Some(i) => i < assets.len() && asset_named(
                Seq::new(assets@.len(), |j: int| assets@[j]@),
                name@,
            ) == Some(assets@[i as int]@) && assets@[i as int].name@ == name@,
            None => asset_named(Seq::new(assets@.len(), |j: int| assets@[j]@), name@) is None,
        },
{
    let ghost models = Seq::new(assets@.len(), |j: int| assets@[j]@);
    let mut i: usize = 0;
    assert(models.skip(0) =~= models);
    while i < assets.len()
        invariant
            i <= assets.len(),
            models == Seq::new(assets@.len(), |j: int| assets@[j]@),
            asset_named(models, name@) == asset_named(models.skip(i as int), name@),
        decreases assets.len() - i,
    {
        assert(models.skip(i as int)[0] == assets@[i as int]@);
        if text::same_text(assets[i].name.as_str(), name) {
            return Some(i);
        }
        assert(models.skip(i as int).skip(1) =~= models.skip(i + 1));
        i = i + 1;
    }
    None
}

/// Decides where the adapter of a release belongs.
fn plan(os: Os, version: &str, asset: &Asset) -> (installation: Installation)
    ensures
        installation@ == installation_of(os, version@, asset@),
{
    let mut directory = "language_servers/tool4d-lsp-stdio-".to_owned();
    directory.append(sanitize_path_component(version).as_str());
    let mut path = directory.clone();
    path.append("/tool4d-lsp-stdio/");
    if os == Os::Windows {
        path.append("tool4d-lsp-stdio.exe");
    } else {
        path.append("tool4d-lsp-stdio");
    }
    Installation {
        version: version.to_owned(),
        asset_name: asset.name.clone(),
        download_url: asset.download_url.clone(),
        directory,
        path,
        needs_permission: os != Os::Windows,
    }
}

/// Decides what to do once the release is known.
fn install_from(os: Os, asset_name: &str, release: &Release) -> (step: Step)
    ensures
        step@ == offered(os, asset_name@, release@),
{
    match find_asset(&release.assets, asset_name) {
        Some(i) => Step::CheckAdapter(plan(os, release.version.as_str(), &release.assets[i])),
        None => Step::Done(
            Err(
                message(
                    "release ",
                    release.version.as_str(),
                    " of miyako/language-4dm-zed does not contain the required adapter asset ",
                    asset_name,
                ),
            ),
        ),
    }
}

/// Decides what to do without a cached adapter.
fn start_search(os: Os, architecture: Architecture) -> (step: Step)
    ensures
        step@ == search(os, architecture),
{
    match adapter_asset_name(os, architecture) {
        Ok(asset_name) => Step::FetchRelease { asset_name },
        Err(error) => Step::Done(Err(error)),
    }
}

/// Decides what to do once the adapter is known to be a file.
fn finish(installation: Installation) -> (step: Step)
    ensures
        step@ == found(installation@),
{
    if installation.needs_permission {
        Step::MakeExecutable(installation)
    } else {
        Step::Done(Ok(installation.path))
    }
}

/// What the extension keeps between two requests for the adapter.
pub struct FourDExtension {
    /// The adapter that was handed out last.
    pub cached_adapter_path: Option<String>,
}

impl View for FourDExtension {
    type V = Option<Seq<char>>;

    open spec fn view(&self) -> Option<Seq<char>> {
        match self.cached_adapter_path {
            Some(path) => Some(path@),
            None => None,
        }
    }
}

impl FourDExtension {
    /// An extension that has handed out no adapter.
    pub fn new() -> (extension: Self)
        ensures
            extension@ is None,
    {
        FourDExtension { cached_adapter_path: None }
    }

    /// Decides the first step towards the adapter.
    pub fn downloaded_adapter_path(&self, os: Os, architecture: Architecture) -> (step: Step)
        ensures
            step@ == first(self@, os, architecture),
    {
        match &self.cached_adapter_path {
            Some(path) => Step::CheckCache { path: path.clone() },
            None => start_search(os, architecture),
        }
    }

    /// Keeps the adapter that was handed out. A failure leaves the earlier one
    /// in place.
    pub fn remember(&mut self, result: &Result<String, String>)
        ensures
            final(self)@ == remembered(
                old(self)@,
                match *result {
                    Ok(path) => Ok(path@),
                    Err(message) => Err(message@),
                },
            ),
    {
        match result {
            Ok(path) => {
                self.cached_adapter_path = Some(path.clone());
            },
            Err(_) => {},
        }
    }
}

/// Decides what to do after a step, from what came of its work. An event that
/// the work cannot bring leaves the step as it is.
pub fn next_step(step: Step, event: Event, os: Os, architecture: Architecture) -> (following: Step)
    ensures
        following@ == next(step@, event@, os, architecture),
{
    match (step, event) {
        (Step::CheckCache { path }, Event::Present(present)) => {
            if present {
                Step::Done(Ok(path))
            } else {
                start_search(os, architecture)
            }
        },
        (Step::FetchRelease { asset_name }, Event::Fetched(fetched)) => {
            match fetched {
                Ok(release) => install_from(os, asset_name, &release),
                Err(error) => Step::Done(Err(error)),
            }
        },
        (Step::CheckAdapter(installation), Event::Present(present)) => {
            if present {
                finish(installation)
            } else {
                Step::CheckDirectory(installation)
            }
        },
        (Step::CheckDirectory(installation), Event::Present(present)) => {
            if present {
                Step::RemoveDirectory(installation)
            } else {
                Step::Download(installation)
            }
        },
        (Step::RemoveDirectory(installation), Event::Finished(finished)) => {
            match finished {
                Ok(_) => Step::Download(installation),
                Err(error) => Step::Done(
                    Err(
                        message(
                            "failed to remove incomplete adapter directory ",
                            installation.directory.as_str(),
                            ": ",
                            error.as_str(),
                        ),
                    ),
                ),
            }
        },
        (Step::Download(installation), Event::Finished(finished)) => {
            match finished {
                Ok(_) => Step::CheckDownloaded(installation),
                Err(error) => Step::Done(
                    Err(
                        message(
                            "failed to download adapter asset ",
                            installation.asset_name.as_str(),
                            ": ",
                            error.as_str(),
                        ),
                    ),
                ),
            }
        },
        (Step::CheckDownloaded(installation), Event::Present(present)) => {
            if present {
                finish(installation)
            } else {
                Step::Done(
                    Err(
                        message(
                            "adapter archive ",
                            installation.asset_name.as_str(),
                            " was downloaded, but the expected executable was not found at ",
                            installation.path.as_str(),
                        ),
                    ),
                )
            }
        },
        (Step::MakeExecutable(installation), Event::Finished(finished)) => {
            match finished {
                Ok(_) => Step::Done(Ok(installation.path)),
                Err(error) => Step::Done(
                    Err(
                        message(
                            "failed to make adapter executable at ",
                            installation.path.as_str(),
                            ": ",
                            error.as_str(),
                        ),
                    ),
                ),
            }
        },
        (step, _) => step,
    }
}

/// Nothing happens where the event is none that the work of the step can
/// bring, nor after the end.
pub proof fn other_events_change_nothing(
    step: StepModel,
    event: EventModel,
    os: Os,
    architecture: Architecture,
)
    ensures
        (step is CheckCache || step is CheckAdapter || step is CheckDirectory
            || step is CheckDownloaded) && !(event is Present) ==> next(
            step,
            event,
            os,
            architecture,
        ) == step,
        step is FetchRelease && !(event is Fetched) ==> next(step, event, os, architecture) == step,
        (step is RemoveDirectory || step is Download || step is MakeExecutable) && !(
        event is Finished) ==> next(step, event, os, architecture) == step,
        step is Done ==> next(step, event, os, architecture) == step,
{
}

} // verus!
