use tool4d_lsp_stdio::extension::{
    adapter_asset_name, check_language_server, configured_or_downloaded_adapter, has_option,
    normalize_launch_arguments, sanitize_path_component, Adapter, Architecture, BinarySettings, Os,
};
use tool4d_lsp_stdio::install::{next_step, Asset, Event, FourDExtension, Release, Step};

const ASSET: &str = "tool4d-lsp-stdio-aarch64-apple-darwin.zip";

fn arguments(texts: &[&str]) -> Vec<String> {
    texts.iter().map(|text| (*text).to_owned()).collect()
}

fn asset(name: &str, download_url: &str) -> Asset {
    Asset {
        name: name.to_owned(),
        download_url: download_url.to_owned(),
    }
}

fn release(version: &str) -> Release {
    Release {
        version: version.to_owned(),
        assets: vec![
            asset("other.zip", "https://example.com/other"),
            asset(ASSET, "https://example.com/first"),
            asset(ASSET, "https://example.com/second"),
        ],
    }
}

fn on_mac(step: Step, event: Event) -> Step {
    next_step(step, event, Os::Mac, Architecture::Aarch64)
}

fn failure(step: Step) -> String {
    match step {
        Step::Done(Err(message)) => message,
        _ => panic!("the installation should have failed"),
    }
}

/// The step that looks for the adapter of a release.
fn checking() -> Step {
    let step = FourDExtension::new().downloaded_adapter_path(Os::Mac, Architecture::Aarch64);
    on_mac(step, Event::Fetched(Ok(release("v1.0"))))
}

/// The step that downloads the adapter.
fn downloading() -> Step {
    on_mac(
        on_mac(checking(), Event::Present(false)),
        Event::Present(false),
    )
}

#[test]
fn there_are_four_assets() {
    assert_eq!(
        adapter_asset_name(Os::Mac, Architecture::Aarch64),
        Ok("tool4d-lsp-stdio-aarch64-apple-darwin.zip")
    );
    assert_eq!(
        adapter_asset_name(Os::Mac, Architecture::X8664),
        Ok("tool4d-lsp-stdio-x86_64-apple-darwin.zip")
    );
    assert_eq!(
        adapter_asset_name(Os::Windows, Architecture::Aarch64),
        Ok("tool4d-lsp-stdio-aarch64-pc-windows-msvc.zip")
    );
    assert_eq!(
        adapter_asset_name(Os::Windows, Architecture::X8664),
        Ok("tool4d-lsp-stdio-x86_64-pc-windows-msvc.zip")
    );
}

#[test]
fn other_platforms_have_no_asset() {
    assert_eq!(
        adapter_asset_name(Os::Linux, Architecture::X8664),
        Err(
            "tool4d-lsp-stdio is not available for Os::Linux/Architecture::X8664".to_owned()
        )
    );
    assert_eq!(
        adapter_asset_name(Os::Windows, Architecture::X86),
        Err(
            "tool4d-lsp-stdio is not available for Os::Windows/Architecture::X86".to_owned()
        )
    );
    assert_eq!(
        adapter_asset_name(Os::Linux, Architecture::Aarch64),
        Err(
            "tool4d-lsp-stdio is not available for Os::Linux/Architecture::Aarch64".to_owned()
        )
    );
    assert!(adapter_asset_name(Os::Mac, Architecture::X86).is_err());
}

#[test]
fn versions_become_safe_names() {
    assert_eq!(sanitize_path_component("v1.2-rc_3"), "v1.2-rc_3");
    assert_eq!(sanitize_path_component("../a b\\\u{e9}"), ".._a_b__");
    assert_eq!(sanitize_path_component(""), "");
    assert_eq!(
        sanitize_path_component(&sanitize_path_component("a:b")),
        "a_b"
    );
}

#[test]
fn options_are_found_with_and_without_value() {
    let given = arguments(&["launch", "--workspace=/w", "--project", "x"]);

    assert!(has_option(&given, "--workspace"));
    assert!(has_option(&given, "--project"));
    assert!(!has_option(&given, "--work"));
    assert!(!has_option(&given, "--workspaces"));
    assert!(!has_option(&[], "--project"));
}

#[test]
fn launch_is_completed() {
    let root = || "/root".to_owned();

    assert_eq!(
        normalize_launch_arguments(arguments(&["--tool", "/path/to/tool4d"]), root()),
        arguments(&["launch", "--tool", "/path/to/tool4d", "--workspace", "/root"])
    );
    assert_eq!(
        normalize_launch_arguments(Vec::new(), root()),
        arguments(&["launch", "--workspace", "/root"])
    );
    assert_eq!(
        normalize_launch_arguments(arguments(&["launch", "--project=/p"]), root()),
        arguments(&["launch", "--project=/p"])
    );
    assert_eq!(
        normalize_launch_arguments(arguments(&["--workspace", "/w"]), root()),
        arguments(&["launch", "--workspace", "/w"])
    );
    assert_eq!(
        normalize_launch_arguments(arguments(&["connect", "--address", "a"]), root()),
        arguments(&["connect", "--address", "a"])
    );
    assert_eq!(
        normalize_launch_arguments(arguments(&["--tool", "connect"]), root()),
        arguments(&["launch", "--tool", "connect", "--workspace", "/root"])
    );
}

#[test]
fn completed_arguments_stay() {
    let once = normalize_launch_arguments(arguments(&["--tool", "t"]), "/a".to_owned());

    assert_eq!(
        normalize_launch_arguments(once.clone(), "/b".to_owned()),
        once
    );
}

#[test]
fn a_configured_path_wins() {
    let (adapter, given) = configured_or_downloaded_adapter(Some(BinarySettings {
        path: Some("/bin/adapter".to_owned()),
        arguments: Some(arguments(&["connect"])),
    }));
    assert!(matches!(adapter, Adapter::Configured(path) if path == "/bin/adapter"));
    assert_eq!(given, arguments(&["connect"]));

    let (adapter, given) = configured_or_downloaded_adapter(Some(BinarySettings {
        path: None,
        arguments: Some(arguments(&["--tool", "t"])),
    }));
    assert!(matches!(adapter, Adapter::Downloaded));
    assert_eq!(given, arguments(&["--tool", "t"]));

    let (adapter, given) = configured_or_downloaded_adapter(Some(BinarySettings {
        path: Some("/a".to_owned()),
        arguments: None,
    }));
    assert!(matches!(adapter, Adapter::Configured(path) if path == "/a"));
    assert!(given.is_empty());

    let (adapter, given) = configured_or_downloaded_adapter(None);
    assert!(matches!(adapter, Adapter::Downloaded));
    assert!(given.is_empty());
}

#[test]
fn one_language_server_is_known() {
    assert_eq!(check_language_server("tool4d"), Ok(()));
    assert_eq!(
        check_language_server("tool4D"),
        Err("unsupported language server: tool4D".to_owned())
    );
}

#[test]
fn a_new_adapter_is_installed() {
    let step = match downloading() {
        Step::Download(installation) => {
            assert_eq!(installation.version, "v1.0");
            assert_eq!(installation.asset_name, ASSET);
            assert_eq!(installation.download_url, "https://example.com/first");
            assert_eq!(
                installation.directory,
                "language_servers/tool4d-lsp-stdio-v1.0"
            );
            Step::Download(installation)
        }
        _ => panic!("the archive should be downloaded"),
    };
    let step = on_mac(step, Event::Finished(Ok(())));
    assert!(matches!(step, Step::CheckDownloaded(_)));
    let step = on_mac(step, Event::Present(true));
    assert!(matches!(step, Step::MakeExecutable(_)));
    let step = on_mac(step, Event::Finished(Ok(())));

    let path = "language_servers/tool4d-lsp-stdio-v1.0/tool4d-lsp-stdio/tool4d-lsp-stdio";
    assert!(matches!(step, Step::Done(Ok(found)) if found == path));
}

#[test]
fn a_present_adapter_is_kept() {
    let step = on_mac(checking(), Event::Present(true));
    assert!(matches!(step, Step::MakeExecutable(_)));
}

#[test]
fn an_incomplete_directory_is_replaced() {
    let step = on_mac(checking(), Event::Present(false));
    assert!(matches!(step, Step::CheckDirectory(_)));
    let step = on_mac(step, Event::Present(true));
    assert!(matches!(step, Step::RemoveDirectory(_)));
    let step = on_mac(step, Event::Finished(Ok(())));
    assert!(matches!(step, Step::Download(_)));
}

#[test]
fn an_event_that_does_not_fit_leaves_the_step() {
    let step = on_mac(checking(), Event::Finished(Ok(())));
    assert!(matches!(step, Step::CheckAdapter(_)));
}

#[test]
fn windows_needs_no_permission() {
    let windows = |step, event| next_step(step, event, Os::Windows, Architecture::X8664);

    let step = FourDExtension::new().downloaded_adapter_path(Os::Windows, Architecture::X8664);
    let step = windows(
        step,
        Event::Fetched(Ok(Release {
            version: "1/2".to_owned(),
            assets: vec![asset("tool4d-lsp-stdio-x86_64-pc-windows-msvc.zip", "u")],
        })),
    );
    let step = windows(step, Event::Present(true));

    let path = "language_servers/tool4d-lsp-stdio-1_2/tool4d-lsp-stdio/tool4d-lsp-stdio.exe";
    assert!(matches!(step, Step::Done(Ok(found)) if found == path));
}

#[test]
fn failures_of_the_installation_are_explained() {
    let start = || FourDExtension::new().downloaded_adapter_path(Os::Mac, Architecture::Aarch64);
    let path = "language_servers/tool4d-lsp-stdio-v1.0/tool4d-lsp-stdio/tool4d-lsp-stdio";

    assert_eq!(
        failure(on_mac(start(), Event::Fetched(Err("offline".to_owned())))),
        "offline"
    );
    assert_eq!(
        failure(on_mac(
            start(),
            Event::Fetched(Ok(Release {
                version: "v2".to_owned(),
                assets: vec![asset("other.zip", "u")],
            }))
        )),
        format!(
            "release v2 of miyako/language-4dm-zed does not contain the required adapter asset \
             {ASSET}"
        )
    );

    let removing = on_mac(
        on_mac(checking(), Event::Present(false)),
        Event::Present(true),
    );
    assert_eq!(
        failure(on_mac(removing, Event::Finished(Err("busy".to_owned())))),
        "failed to remove incomplete adapter directory language_servers/tool4d-lsp-stdio-v1.0: busy"
    );
    assert_eq!(
        failure(on_mac(
            downloading(),
            Event::Finished(Err("reset".to_owned()))
        )),
        format!("failed to download adapter asset {ASSET}: reset")
    );

    let downloaded = on_mac(downloading(), Event::Finished(Ok(())));
    assert_eq!(
        failure(on_mac(downloaded, Event::Present(false))),
        format!(
            "adapter archive {ASSET} was downloaded, but the expected executable was not found \
             at {path}"
        )
    );

    let permission = on_mac(checking(), Event::Present(true));
    assert_eq!(
        failure(on_mac(permission, Event::Finished(Err("denied".to_owned())))),
        format!("failed to make adapter executable at {path}: denied")
    );
}

#[test]
fn an_unknown_platform_fails_at_once() {
    assert_eq!(
        failure(FourDExtension::new().downloaded_adapter_path(Os::Linux, Architecture::X8664)),
        "tool4d-lsp-stdio is not available for Os::Linux/Architecture::X8664"
    );
}

#[test]
fn the_adapter_is_remembered() {
    let mut extension = FourDExtension::new();

    extension.remember(&Err("offline".to_owned()));
    assert_eq!(extension.cached_adapter_path, None);

    extension.remember(&Ok("/a".to_owned()));
    extension.remember(&Err("offline".to_owned()));

    let step = extension.downloaded_adapter_path(Os::Mac, Architecture::Aarch64);
    assert!(matches!(&step, Step::CheckCache { path } if path == "/a"));
    let step = on_mac(step, Event::Present(true));
    assert!(matches!(step, Step::Done(Ok(path)) if path == "/a"));

    let step = extension.downloaded_adapter_path(Os::Mac, Architecture::Aarch64);
    let step = on_mac(step, Event::Present(false));
    assert!(matches!(step, Step::FetchRelease { asset_name } if asset_name == ASSET));
}
