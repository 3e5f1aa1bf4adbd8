//! The editor's extension: which adapter it starts, and with which arguments.
use vstd::prelude::*;
use vstd::string::*;

use crate::text;

verus! {

/// An operating system that the editor runs on.
#[derive(Clone, Copy, Debug, PartialEq, Eq, Structural)]
pub enum Os {
    Mac,
    Linux,
    Windows,
}

/// A processor architecture that the editor runs on.
#[derive(Clone, Copy, Debug, PartialEq, Eq, Structural)]
pub enum Architecture {
    Aarch64,
    X86,
    X8664,
}

pub open spec fn os_name(os: Os) -> Seq<char> {
    match os {
        Os::Mac => "Os::Mac"@,
        Os::Linux => "Os::Linux"@,
        Os::Windows => "Os::Windows"@,
    }
}

pub open spec fn architecture_name(architecture: Architecture) -> Seq<char> {
    match architecture {
        Architecture::Aarch64 => "Architecture::Aarch64"@,
        Architecture::X86 => "Architecture::X86"@,
        Architecture::X8664 => "Architecture::X8664"@,
    }
}

/// The archive of the adapter for a platform.
pub open spec fn asset_name(os: Os, architecture: Architecture) -> Option<Seq<char>> {
    match (os, architecture) {
        (Os::Mac, Architecture::Aarch64) => Some("tool4d-lsp-stdio-aarch64-apple-darwin.zip"@),
        (Os::Mac, Architecture::X8664) => Some("tool4d-lsp-stdio-x86_64-apple-darwin.zip"@),
        (Os::Windows, Architecture::Aarch64) => Some(
            "tool4d-lsp-stdio-aarch64-pc-windows-msvc.zip"@,
        ),
        (Os::Windows, Architecture::X8664) => Some("tool4d-lsp-stdio-x86_64-pc-windows-msvc.zip"@),
        _ => None,
    }
}

/// Why there is no adapter for a platform.
pub open spec fn unavailable(os: Os, architecture: Architecture) -> Seq<char> {
    "tool4d-lsp-stdio is not available for "@ + os_name(os) + "/"@ + architecture_name(architecture)
}

/// An archive is named after the processor and the system that it is for.
/// There is one for each but Linux and the 32-bit processors.
pub proof fn an_archive_is_named_after_its_platform(os: Os, architecture: Architecture)
    ensures
        asset_name(os, architecture) is None <==> os == Os::Linux || architecture
            == Architecture::X86,
        asset_name(os, architecture) matches Some(name) ==> name == "tool4d-lsp-stdio-"@ + (
        if architecture == Architecture::Aarch64 {
            "aarch64"@
        } else {
            "x86_64"@
        }) + (if os == Os::Mac {
            "-apple-darwin"@
        } else {
            "-pc-windows-msvc"@
        }) + ".zip"@,
{
    reveal_strlit("tool4d-lsp-stdio-");
    reveal_strlit("aarch64");
    reveal_strlit("x86_64");
    reveal_strlit("-apple-darwin");
    reveal_strlit("-pc-windows-msvc");
    reveal_strlit(".zip");
    reveal_strlit("tool4d-lsp-stdio-aarch64-apple-darwin.zip");
    reveal_strlit("tool4d-lsp-stdio-x86_64-apple-darwin.zip");
    reveal_strlit("tool4d-lsp-stdio-aarch64-pc-windows-msvc.zip");
    reveal_strlit("tool4d-lsp-stdio-x86_64-pc-windows-msvc.zip");
    if let Some(name) = asset_name(os, architecture) {
        let composed = "tool4d-lsp-stdio-"@ + (if architecture == Architecture::Aarch64 {
            "aarch64"@
        } else {
            "x86_64"@
        }) + (if os == Os::Mac {
            "-apple-darwin"@
        } else {
            "-pc-windows-msvc"@
        }) + ".zip"@;
        assert(name =~= composed);
    }
}

/// A platform without an archive is named in the complaint about it.
pub proof fn a_platform_is_named_in_the_complaint(os: Os, architecture: Architecture)
    ensures
        unavailable(os, architecture) == "tool4d-lsp-stdio is not available for "@ + "Os::"@ + (
        match os {
            Os::Mac => "Mac"@,
            Os::Linux => "Linux"@,
            Os::Windows => "Windows"@,
        }) + "/Architecture::"@ + (match architecture {
            Architecture::Aarch64 => "Aarch64"@,
            Architecture::X86 => "X86"@,
            Architecture::X8664 => "X8664"@,
        }),
{
    reveal_strlit("Os::");
    reveal_strlit("/");
    reveal_strlit("/Architecture::");
    reveal_strlit("Mac");
    reveal_strlit("Linux");
    reveal_strlit("Windows");
    reveal_strlit("Aarch64");
    reveal_strlit("X86");
    reveal_strlit("X8664");
    reveal_strlit("Os::Mac");
    reveal_strlit("Os::Linux");
    reveal_strlit("Os::Windows");
    reveal_strlit("Architecture::Aarch64");
    reveal_strlit("Architecture::X86");
    reveal_strlit("Architecture::X8664");
    let start = "tool4d-lsp-stdio is not available for "@;
    let system = match os {
        Os::Mac => "Mac"@,
        Os::Linux => "Linux"@,
        Os::Windows => "Windows"@,
    };
    let processor = match architecture {
        Architecture::Aarch64 => "Aarch64"@,
        Architecture::X86 => "X86"@,
        Architecture::X8664 => "X8664"@,
    };
    assert(os_name(os) =~= "Os::"@ + system);
    assert("/"@ + architecture_name(architecture) =~= "/Architecture::"@ + processor);
    assert(unavailable(os, architecture) =~= start + "Os::"@ + system + ("/"@ + architecture_name(
        architecture,
    )));
    assert(unavailable(os, architecture) =~= start + "Os::"@ + system + "/Architecture::"@
        + processor);
}

/// Names the archive of the adapter for a platform.
pub fn adapter_asset_name(os: Os, architecture: Architecture) -> (name: Result<&'static str, String>)
    ensures
        match asset_name(os, architecture) {
            Some(asset) => name is Ok && name->Ok_0@ == asset,
            None => name is Err && name->Err_0@ == unavailable(os, architecture),
        },
{
    match (os, architecture) {
        (Os::Mac, Architecture::Aarch64) => Ok("tool4d-lsp-stdio-aarch64-apple-darwin.zip"),
        (Os::Mac, Architecture::X8664) => Ok("tool4d-lsp-stdio-x86_64-apple-darwin.zip"),
        (Os::Windows, Architecture::Aarch64) => Ok("tool4d-lsp-stdio-aarch64-pc-windows-msvc.zip"),
        (Os::Windows, Architecture::X8664) => Ok("tool4d-lsp-stdio-x86_64-pc-windows-msvc.zip"),
        _ => {
            let mut message = "tool4d-lsp-stdio is not available for ".to_owned();
            message.append(
                match os {
                    Os::Mac => "Os::Mac",
                    Os::Linux => "Os::Linux",
                    Os::Windows => "Os::Windows",
                },
            );
            message.append("/");
            message.append(
                match architecture {
                    Architecture::Aarch64 => "Architecture::Aarch64",
                    Architecture::X86 => "Architecture::X86",
                    Architecture::X8664 => "Architecture::X8664",
                },
            );
            Err(message)
        },
    }
}

/// A character that may stand in the name of a directory: an ASCII letter or
/// digit, `-`, `_` or `.`.
pub open spec fn is_safe(character: char) -> bool {
    ('a' <= character <= 'z') || ('A' <= character <= 'Z') || ('0' <= character <= '9')
        || character == '-' || character == '_' || character == '.'
}

/// A text with `_` in the place of every character that is not safe.
pub open spec fn sanitized(value: Seq<char>) -> Seq<char> {
    Seq::new(
        value.len(),
        |i: int|
            if is_safe(value[i]) {
                value[i]
            } else {
                '_'
            },
    )
}

/// A sanitized text holds safe characters only, and is its own sanitized form.
pub proof fn sanitizing_is_idempotent(value: Seq<char>)
    ensures
        forall|i: int| 0 <= i < sanitized(value).len() ==> is_safe(#[trigger] sanitized(value)[i]),
        sanitized(sanitized(value)) == sanitized(value),
{
    assert(sanitized(sanitized(value)) =~= sanitized(value));
}

/// Sanitizing goes character by character: ASCII letters and digits, `-`, `_`
/// and `.` stay, and any other character becomes `_`.
pub proof fn sanitizing_goes_by_character(value: Seq<char>, i: int)
    requires
        0 <= i < value.len(),
    ensures
        sanitized(value).len() == value.len(),
        sanitized(value)[i] == (if ('a' <= value[i] && value[i] <= 'z') || ('A' <= value[i]
            && value[i] <= 'Z') || ('0' <= value[i] && value[i] <= '9') || value[i] == '-'
            || value[i] == '_' || value[i] == '.' {
            value[i]
        } else {
            '_'
        }),
{
}

/// Makes a text safe to stand as one component of a path.
pub fn sanitize_path_component(value: &str) -> (result: String)
    ensures
        result@ == sanitized(value@),
{
    let characters = text::chars_of(value);
    let mut result = String::new();
    let mut i: usize = 0;
    assert(sanitized(value@).take(0) =~= Seq::<char>::empty());
    while i < characters.len()
        invariant
            i <= characters.len(),
            characters@ == value@,
            result@ == sanitized(value@).take(i as int),
        decreases characters.len() - i,
    {
        let character = characters[i];
        if ('a' <= character && character <= 'z') || ('A' <= character && character <= 'Z') || ('0'
            <= character && character <= '9') || character == '-' || character == '_' || character
            == '.' {
            result.push(character);
        } else {
            result.push('_');
        }
        assert(result@ =~= sanitized(value@).take(i + 1));
        i = i + 1;
    }
    assert(sanitized(value@).take(i as int) =~= sanitized(value@));
    result
}

/// The argument is the option, alone or with a value after `=`.
pub open spec fn is_option(argument: Seq<char>, option: Seq<char>) -> bool {
    argument == option || (option.is_prefix_of(argument) && argument.len() > option.len()
        && argument[option.len() as int] == '=')
}

pub open spec fn gives_option(arguments: Seq<Seq<char>>, option: Seq<char>) -> bool {
    exists|i: int| 0 <= i < arguments.len() && is_option(#[trigger] arguments[i], option)
}

/// An option is given alone, or together with a value behind an equals sign.
pub proof fn options_may_have_values(arguments: Seq<Seq<char>>, option: Seq<char>)
    ensures
        gives_option(arguments, option) <==> exists|i: int|
            0 <= i < arguments.len() && (#[trigger] arguments[i] == option || exists|
                value: Seq<char>,
            |
                arguments[i] == #[trigger] (option + seq!['='] + value)),
{
    if gives_option(arguments, option) {
        let i = choose|i: int| 0 <= i < arguments.len() && is_option(#[trigger] arguments[i], option);
        let argument = arguments[i];
        if argument != option {
            let value = argument.skip((option.len() + 1) as int);
            assert(option == argument.subrange(0, option.len() as int));
            assert(argument =~= option + seq!['='] + value);
        }
    }
    assert forall|i: int, value: Seq<char>|
        0 <= i < arguments.len() && #[trigger] arguments[i] == #[trigger] (option + seq!['=']
            + value) implies gives_option(arguments, option) by {
        assert(option =~= arguments[i].subrange(0, option.len() as int));
        assert(is_option(arguments[i], option));
    }
    assert forall|i: int| 0 <= i < arguments.len() && #[trigger] arguments[i]
        == option implies gives_option(arguments, option) by {
        assert(is_option(arguments[i], option));
    }
}

/// Whether an option is among the arguments.
pub fn has_option(arguments: &[String], option: &str) -> (found: bool)
    ensures
        found == gives_option(text::texts(arguments@), option@),
{
    let wanted = text::chars_of(option);
    let mut i: usize = 0;
    while i < arguments.len()
        invariant
            i <= arguments.len(),
            wanted@ == option@,
            forall|j: int|
                0 <= j < i ==> !is_option(#[trigger] text::texts(arguments@)[j], option@),
        decreases arguments.len() - i,
    {
        let argument = text::chars_of(arguments[i].as_str());
        let ghost argument_text = text::texts(arguments@)[i as int];
        if text::starts_with(&argument, &wanted) {
            if argument.len() == wanted.len() {
                assert(argument@ =~= wanted@);
                assert(is_option(argument_text, option@));
                return true;
            }
            if argument[wanted.len()] == '=' {
                assert(is_option(argument_text, option@));
                return true;
            }
        } else {
            assert(wanted@.is_prefix_of(wanted@)) by {
                assert(wanted@ =~= wanted@.subrange(0, wanted@.len() as int));
            }
        }
        i = i + 1;
    }
    false
}

pub open spec fn is_subcommand(argument: Seq<char>) -> bool {
    argument == "launch"@ || argument == "connect"@
}

/// The arguments with a subcommand in front; `launch` where none was given.
pub open spec fn with_subcommand(arguments: Seq<Seq<char>>) -> Seq<Seq<char>> {
    if arguments.len() > 0 && is_subcommand(arguments[0]) {
        arguments
    } else {
        seq!["launch"@] + arguments
    }
}

/// The arguments that the adapter is started with.
pub open spec fn launch_arguments(arguments: Seq<Seq<char>>, root: Seq<char>) -> Seq<Seq<char>> {
    let full = with_subcommand(arguments);
    if full[0] == "connect"@ || gives_option(full, "--workspace"@) || gives_option(
        full,
        "--project"@,
    ) {
        full
    } else {
        full + seq!["--workspace"@, root]
    }
}

/// One of the arguments is the option, or the option with a value behind an
/// equals sign.
pub open spec fn names(arguments: Seq<Seq<char>>, option: Seq<char>) -> bool {
    exists|i: int|
        0 <= i < arguments.len() && (#[trigger] arguments[i] == option || exists|value: Seq<char>|
            arguments[i] == #[trigger] (option + seq!['='] + value))
}

/// What completing does to the given arguments: `launch` is put in front
/// unless a subcommand is there, and behind them come `--workspace` and the
/// root of the worktree, unless they connect or name a workspace or a project.
/// Nothing else is changed.
pub proof fn arguments_are_completed(arguments: Seq<Seq<char>>, root: Seq<char>)
    ensures
        ({
            let complete = launch_arguments(arguments, root);
            let connects = arguments.len() > 0 && arguments[0] == "connect"@;
            let launches = arguments.len() > 0 && arguments[0] == "launch"@;
            let is_named = names(arguments, "--workspace"@) || names(arguments, "--project"@);
            &&& connects ==> complete == arguments
            &&& launches && is_named ==> complete == arguments
            &&& launches && !is_named ==> complete == arguments + seq!["--workspace"@, root]
            &&& !connects && !launches && is_named ==> complete == seq!["launch"@] + arguments
            &&& !connects && !launches && !is_named ==> complete == seq!["launch"@] + arguments
                + seq!["--workspace"@, root]
        }),
{
    reveal_strlit("launch");
    reveal_strlit("connect");
    reveal_strlit("--workspace");
    reveal_strlit("--project");
    let full = with_subcommand(arguments);
    let supplied = seq!["launch"@] + arguments;
    assert("launch"@.len() == 6 && "connect"@.len() == 7);
    options_may_have_values(arguments, "--workspace"@);
    options_may_have_values(arguments, "--project"@);
    lemma_launch_is_no_option(arguments, "--workspace"@);
    lemma_launch_is_no_option(arguments, "--project"@);
    assert(supplied[0] == "launch"@);
}

proof fn lemma_launch_is_no_option(arguments: Seq<Seq<char>>, option: Seq<char>)
    requires
        option.len() > 6,
    ensures
        gives_option(seq!["launch"@] + arguments, option) == gives_option(arguments, option),
{
    reveal_strlit("launch");
    let full = seq!["launch"@] + arguments;
    assert(!is_option(full[0], option));
    if gives_option(full, option) {
        let i = choose|i: int| 0 <= i < full.len() && is_option(#[trigger] full[i], option);
        assert(full[i] == arguments[i - 1]);
    }
    if gives_option(arguments, option) {
        let i = choose|i: int| 0 <= i < arguments.len() && is_option(#[trigger] arguments[i], option);
        assert(full[i + 1] == arguments[i]);
    }
}

/// The adapter is always started with a subcommand, and arguments that have
/// been completed stay as they are.
pub proof fn completing_arguments_is_idempotent(
    arguments: Seq<Seq<char>>,
    root: Seq<char>,
    other_root: Seq<char>,
)
    ensures
        is_subcommand(launch_arguments(arguments, root)[0]),
        launch_arguments(launch_arguments(arguments, root), other_root) == launch_arguments(
            arguments,
            root,
        ),
{
    let full = with_subcommand(arguments);
    let complete = launch_arguments(arguments, root);
    assert(complete[0] == full[0]);
    if complete != full {
        assert(complete[full.len() as int] == "--workspace"@);
        assert(is_option(complete[full.len() as int], "--workspace"@));
    }
}

/// `launch` always knows where to look for a project: a workspace or a project
/// is among its arguments.
pub proof fn launch_names_a_project(arguments: Seq<Seq<char>>, root: Seq<char>)
    ensures
        launch_arguments(arguments, root)[0] == "connect"@ || gives_option(
            launch_arguments(arguments, root),
            "--workspace"@,
        ) || gives_option(launch_arguments(arguments, root), "--project"@),
{
    let full = with_subcommand(arguments);
    let complete = launch_arguments(arguments, root);
    if complete != full {
        assert(complete[full.len() as int] == "--workspace"@);
        assert(is_option(complete[full.len() as int], "--workspace"@));
    }
}

/// The configured arguments are kept, side by side and in their order, behind
/// the subcommand that was put before them if there was none.
pub proof fn configured_arguments_are_kept(arguments: Seq<Seq<char>>, root: Seq<char>)
    ensures
        ({
            let complete = launch_arguments(arguments, root);
            let start: int = if arguments.len() > 0 && is_subcommand(arguments[0]) {
                0
            } else {
                1
            };
            &&& start + arguments.len() <= complete.len()
            &&& complete.subrange(start, start + arguments.len()) == arguments
        }),
{
    let complete = launch_arguments(arguments, root);
    let start: int = if arguments.len() > 0 && is_subcommand(arguments[0]) {
        0
    } else {
        1
    };
    assert(complete.subrange(start, start + arguments.len()) =~= arguments);
}

/// Completes the configured arguments: `launch` is the subcommand where none
/// is given, and it is told the worktree where neither a workspace nor a
/// project is named. `connect` takes neither.
pub fn normalize_launch_arguments(arguments: Vec<String>, worktree_root: String) -> (result: Vec<
    String,
>)
    ensures
        text::texts(result@) == launch_arguments(text::texts(arguments@), worktree_root@),
{
    let mut result = arguments;
    let ghost given = text::texts(arguments@);
    let has_subcommand = result.len() > 0 && (text::same_text(result[0].as_str(), "launch")
        || text::same_text(result[0].as_str(), "connect"));
    if !has_subcommand {
        result.insert(0, "launch".to_owned());
    }
    assert(text::texts(result@) =~= with_subcommand(given));
    if text::same_text(result[0].as_str(), "connect") {
        return result;
    }
    if !has_option(result.as_slice(), "--workspace") && !has_option(
        result.as_slice(),
        "--project",
    ) {
        result.push("--workspace".to_owned());
        result.push(worktree_root);
        assert(text::texts(result@) =~= launch_arguments(given, worktree_root@));
    }
    result
}

/// What the user configured about the language server's program.
pub struct BinarySettings {
    pub path: Option<String>,
    pub arguments: Option<Vec<String>>,
}

/// Which adapter is started.
pub enum Adapter {
    /// The one that the user named.
    Configured(String),
    /// The one of the latest release.
    Downloaded,
}

/// The path that the user named, where there is one.
pub open spec fn configured_path(binary: Option<BinarySettings>) -> Option<Seq<char>> {
    match binary {
        Some(settings) => match settings.path {
            Some(path) => Some(path@),
            None => None,
        },
        None => None,
    }
}

/// The arguments that the user named; none where nothing is configured.
pub open spec fn configured_arguments(binary: Option<BinarySettings>) -> Seq<Seq<char>> {
    match binary {
        Some(settings) => match settings.arguments {
            Some(arguments) => text::texts(arguments@),
            None => Seq::empty(),
        },
        None => Seq::empty(),
    }
}

/// Decides which adapter is started, and with which configured arguments. A
/// path that the user named wins; the arguments count either way.
pub fn configured_or_downloaded_adapter(binary: Option<BinarySettings>) -> (choice: (
    Adapter,
    Vec<String>,
))
    ensures
        match configured_path(binary) {
            Some(path) => choice.0 is Configured && choice.0->Configured_0@ == path,
            None => choice.0 is Downloaded,
        },
        text::texts(choice.1@) == configured_arguments(binary),
{
    match binary {
        Some(settings) => {
            let arguments = match settings.arguments {
                Some(arguments) => arguments,
                None => Vec::new(),
            };
            assert(text::texts(arguments@) =~= configured_arguments(binary));
            match settings.path {
                Some(path) => (Adapter::Configured(path), arguments),
                None => (Adapter::Downloaded, arguments),
            }
        },
        None => {
            let arguments: Vec<String> = Vec::new();
            assert(text::texts(arguments@) =~= configured_arguments(binary));
            (Adapter::Downloaded, arguments)
        },
    }
}

/// A configured path and configured arguments are taken as they stand, each
/// whether or not the other is there.
pub proof fn settings_are_taken_as_they_stand(path: Option<String>, arguments: Option<Vec<String>>)
    ensures
        ({
            let binary = Some(BinarySettings { path, arguments });
            &&& configured_path(binary) is Some <==> path is Some
            &&& path matches Some(text) ==> configured_path(binary) == Some(text@)
            &&& arguments matches Some(given) ==> configured_arguments(binary).len() == given@.len()
            &&& arguments matches Some(given) ==> forall|i: int|
                0 <= i < given@.len() ==> #[trigger] configured_arguments(binary)[i] == given@[i]@
            &&& arguments is None ==> configured_arguments(binary).len() == 0
        }),
        configured_path(None) is None,
        configured_arguments(None).len() == 0,
{
}

/// Accepts the one language server that the extension knows.
pub fn check_language_server(id: &str) -> (result: Result<(), String>)
    ensures
        result is Ok == (id@ == "tool4d"@),
        result is Err ==> result->Err_0@ == "unsupported language server: "@ + id@,
{
    if text::same_text(id, "tool4d") {
        Ok(())
    } else {
        let mut message = "unsupported language server: ".to_owned();
        message.append(id);
        Err(message)
    }
}

} // verus!
