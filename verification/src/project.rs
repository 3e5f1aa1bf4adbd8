//! Which project is opened, and whether it and the tool can be used.
use vstd::prelude::*;
use vstd::string::*;

use crate::search;
use crate::search::has_project_extension;
use crate::text;

verus! {

/// Where the project comes from.
pub enum ProjectSource<P> {
    /// The user named it.
    Explicit(P),
    /// It has to be found below this directory.
    Workspace(P),
}

/// Decides where the project comes from. A project that the user named wins
/// over a workspace.
pub fn resolve_project<P>(explicit_project: Option<P>, workspace: Option<P>) -> (source: Result<
    ProjectSource<P>,
    String,
>)
    ensures
        match (explicit_project, workspace) {
            (Some(project), _) => source == Ok::<ProjectSource<P>, String>(
                ProjectSource::Explicit(project),
            ),
            (None, Some(directory)) => source == Ok::<ProjectSource<P>, String>(
                ProjectSource::Workspace(directory),
            ),
            (None, None) => source is Err && source->Err_0@
                == "no project was supplied; use --project or --workspace"@,
        },
{
    match explicit_project {
        Some(project) => Ok(ProjectSource::Explicit(project)),
        None => match workspace {
            Some(directory) => Ok(ProjectSource::Workspace(directory)),
            None => Err("no project was supplied; use --project or --workspace".to_owned()),
        },
    }
}

/// The paths, each on a line of its own and indented.
pub open spec fn listed(paths: Seq<Seq<char>>) -> Seq<char>
    decreases paths.len(),
{
    if paths.len() == 0 {
        Seq::empty()
    } else if paths.len() == 1 {
        "  "@ + paths[0]
    } else {
        listed(paths.drop_last()) + "\n"@ + "  "@ + paths.last()
    }
}

/// Why the projects that were found below a workspace do not settle which one
/// is opened; nothing where there is exactly one.
pub open spec fn selection_failure(paths: Seq<Seq<char>>, workspace: Seq<char>) -> Option<
    Seq<char>,
> {
    if paths.len() == 0 {
        Some("no .4DProject file was found under "@ + workspace)
    } else if paths.len() == 1 {
        None
    } else {
        Some("multiple .4DProject files were found; use --project:\n"@ + listed(paths))
    }
}

fn append_listed(message: &mut String, paths: &Vec<String>)
    ensures
        final(message)@ == old(message)@ + listed(text::texts(paths@)),
{
    let ghost start = message@;
    let ghost all = text::texts(paths@);
    let mut i: usize = 0;
    assert(message@ =~= start + listed(all.take(0)));
    while i < paths.len()
        invariant
            i <= paths.len(),
            all == text::texts(paths@),
            message@ == start + listed(all.take(i as int)),
        decreases paths.len() - i,
    {
        if i > 0 {
            message.append("\n");
        }
        message.append("  ");
        message.append(paths[i].as_str());
        proof {
            let longer = all.take(i + 1);
            assert(longer.drop_last() =~= all.take(i as int));
            assert(longer.last() == paths@[i as int]@);
            if i > 0 {
                assert(message@ =~= start + (listed(all.take(i as int)) + "\n"@ + "  "@
                    + longer.last()));
            } else {
                assert(message@ =~= start + ("  "@ + longer[0]));
            }
        }
        i = i + 1;
    }
    assert(all.take(i as int) =~= all);
}

/// Decides whether the projects that were found below a workspace settle which
/// one is opened: there has to be exactly one.
pub fn select_project(paths: &Vec<String>, workspace: &str) -> (result: Result<(), String>)
    ensures
        match selection_failure(text::texts(paths@), workspace@) {
            None => result is Ok,
            Some(message) => result is Err && result->Err_0@ == message,
        },
{
    if paths.len() == 0 {
        let mut message = "no .4DProject file was found under ".to_owned();
        message.append(workspace);
        Err(message)
    } else if paths.len() == 1 {
        Ok(())
    } else {
        let mut message = "multiple .4DProject files were found; use --project:\n".to_owned();
        append_listed(&mut message, paths);
        Err(message)
    }
}

/// Why the search below a workspace was given up.
pub fn too_many_projects(workspace: &str) -> (message: String)
    ensures
        message@ == "more than 100 .4DProject files were found under "@ + workspace@,
{
    let mut message = "more than 100 .4DProject files were found under ".to_owned();
    message.append(workspace);
    message
}

/// Accepts a project that the user named: it has to be a file, and to have the
/// extension of a project.
pub fn validate_project(is_file: bool, extension: &Option<String>, path: &str) -> (result: Result<
    (),
    String,
>)
    ensures
        if !is_file {
            result is Err && result->Err_0@ == "4D project does not exist: "@ + path@
        } else if !search::is_project_extension(search::chars(*extension)) {
            result is Err && result->Err_0@ == "the project path does not end in .4DProject: "@
                + path@
        } else {
            result is Ok
        },
{
    if !is_file {
        let mut message = "4D project does not exist: ".to_owned();
        message.append(path);
        return Err(message);
    }
    if !has_project_extension(extension) {
        let mut message = "the project path does not end in .4DProject: ".to_owned();
        message.append(path);
        return Err(message);
    }
    Ok(())
}

/// Accepts the tool: it has to exist and to be a file.
pub fn validate_executable(is_present: bool, is_file: bool, path: &str) -> (result: Result<
    (),
    String,
>)
    ensures
        if !is_present {
            result is Err && result->Err_0@ == "tool4d does not exist: "@ + path@
        } else if !is_file {
            result is Err && result->Err_0@ == "tool4d path is not a file: "@ + path@
        } else {
            result is Ok
        },
{
    if !is_present {
        let mut message = "tool4d does not exist: ".to_owned();
        message.append(path);
        return Err(message);
    }
    if !is_file {
        let mut message = "tool4d path is not a file: ".to_owned();
        message.append(path);
        return Err(message);
    }
    Ok(())
}

/// A workspace never settles on a project silently: it does so exactly where
/// it holds one project.
pub proof fn only_a_single_project_is_selected(paths: Seq<Seq<char>>, workspace: Seq<char>)
    ensures
        selection_failure(paths, workspace) is None <==> paths.len() == 1,
{
}

/// A list of projects has a line for each, in their order, indented by two
/// spaces.
pub proof fn projects_are_listed_line_by_line(
    path: Seq<char>,
    first: Seq<Seq<char>>,
    rest: Seq<Seq<char>>,
)
    requires
        first.len() > 0,
        rest.len() > 0,
    ensures
        listed(seq![path]) == "  "@ + path,
        listed(first + rest) == listed(first) + "\n"@ + listed(rest),
    decreases rest.len(),
{
    let whole = first + rest;
    assert(whole.len() > 1);
    assert(whole.last() == rest.last());
    if rest.len() == 1 {
        assert(whole.drop_last() =~= first);
        assert(rest.last() == rest[0]);
        assert(listed(first) + "\n"@ + "  "@ + rest[0] =~= listed(first) + "\n"@ + ("  "@
            + rest[0]));
    } else {
        let fewer = rest.drop_last();
        projects_are_listed_line_by_line(path, first, fewer);
        assert(whole.drop_last() =~= first + fewer);
        assert(listed(whole) =~= listed(first) + "\n"@ + listed(rest));
    }
}

/// Where a workspace does not settle on a project, the complaint names the
/// workspace if there is none, and lists every project if there are several.
pub proof fn the_complaint_names_what_was_found(paths: Seq<Seq<char>>, workspace: Seq<char>)
    ensures
        paths.len() == 0 ==> selection_failure(paths, workspace) == Some(
            "no .4DProject file was found under "@ + workspace,
        ),
        paths.len() > 1 ==> selection_failure(paths, workspace) == Some(
            "multiple .4DProject files were found; use --project:\n"@ + listed(paths),
        ),
{
}

} // verus!
