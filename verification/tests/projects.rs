use tool4d_lsp_stdio::project::{
    resolve_project, select_project, too_many_projects, validate_executable, validate_project,
    ProjectSource,
};
use tool4d_lsp_stdio::search::{
    has_project_extension, Action, Entry, Event, Outcome, ProjectSearch, MAX_DEPTH, MAX_PROJECTS,
};

fn directory(name: &str) -> Event {
    Event::Entry(Entry::Directory {
        name: Some(name.to_owned()),
    })
}

fn file(extension: &str) -> Event {
    Event::Entry(Entry::File {
        extension: Some(extension.to_owned()),
    })
}

fn step(search: ProjectSearch, event: Event) -> (ProjectSearch, Action) {
    match search.find_projects(event) {
        Outcome::Running { search, action } => (search, action),
        _ => panic!("the search should go on"),
    }
}

fn found(search: ProjectSearch) -> Vec<Vec<u8>> {
    match search.find_projects(Event::End) {
        Outcome::Finished(paths) => paths,
        _ => panic!("the search should be over"),
    }
}

#[test]
fn projects_come_in_order_and_once() {
    let mut search = ProjectSearch::new();

    for path in [&b"b"[..], b"a\0c", b"b", b"a", b"", b"a\0b\0z", b"a\0b"] {
        let (next, action) = step(search, file("4DProject"));
        assert_eq!(action, Action::Resolve);
        let (next, action) = step(next, Event::Resolved(path.to_vec()));
        assert_eq!(action, Action::Continue);
        search = next;
    }

    assert_eq!(
        found(search),
        vec![
            b"".to_vec(),
            b"a".to_vec(),
            b"a\0b".to_vec(),
            b"a\0b\0z".to_vec(),
            b"a\0c".to_vec(),
            b"b".to_vec(),
        ]
    );
}

#[test]
fn an_empty_workspace_has_no_project() {
    assert!(found(ProjectSearch::new()).is_empty());
}

#[test]
fn some_directories_are_left_out() {
    let mut search = ProjectSearch::new();

    for name in [".git", "node_modules", "target"] {
        let (next, action) = step(search, directory(name));
        assert_eq!(action, Action::Continue);
        search = next;
    }
    let (search, action) = step(search, directory("Target"));
    assert_eq!(action, Action::Enter);
    let (search, action) = step(search, Event::Entry(Entry::Directory { name: None }));
    assert_eq!(action, Action::Enter);

    let (search, _) = step(search, Event::End);
    let (search, _) = step(search, Event::End);
    assert!(found(search).is_empty());
}

#[test]
fn the_search_goes_six_directories_down() {
    let mut search = ProjectSearch::new();

    for _ in 0..MAX_DEPTH {
        let (next, action) = step(search, directory("d"));
        assert_eq!(action, Action::Enter);
        search = next;
    }
    let (mut search, action) = step(search, directory("d"));
    assert_eq!(action, Action::Continue);
    assert_eq!(MAX_DEPTH, 6);

    for _ in 0..MAX_DEPTH {
        search = step(search, Event::End).0;
    }
    assert!(found(search).is_empty());
}

#[test]
fn only_files_with_the_extension_count() {
    let mut search = ProjectSearch::new();

    for event in [
        file("4dm"),
        Event::Entry(Entry::File { extension: None }),
        Event::Entry(Entry::Other),
    ] {
        let (next, action) = step(search, event);
        assert_eq!(action, Action::Continue);
        search = next;
    }
    assert!(found(search).is_empty());

    for extension in ["4DProject", "4dproject", "4DPROJECT"] {
        assert!(has_project_extension(&Some(extension.to_owned())));
    }
    for extension in ["4DProjec", "4DProjects", "", "4DProje\u{e7}t"] {
        assert!(!has_project_extension(&Some(extension.to_owned())));
    }
    assert!(!has_project_extension(&None));
}

#[test]
fn too_many_projects_end_the_search() {
    let mut search = ProjectSearch::new();
    assert_eq!(MAX_PROJECTS, 100);

    for number in 0..100u8 {
        search = step(search, Event::Resolved(vec![number])).0;
    }
    search = step(search, Event::Resolved(vec![7])).0;
    search = step(search, directory("d")).0;
    search = step(search, Event::End).0;
    search = step(search, directory("d")).0;
    search = step(search, Event::Resolved(vec![100])).0;

    assert!(matches!(search.find_projects(Event::End), Outcome::Aborted));
    assert_eq!(
        too_many_projects("/w"),
        "more than 100 .4DProject files were found under /w"
    );
}

#[test]
fn a_hundred_projects_are_not_too_many() {
    let mut search = ProjectSearch::new();

    for number in 0..100u8 {
        search = step(search, Event::Resolved(vec![99 - number])).0;
    }
    assert_eq!(
        found(search),
        (0..100u8).map(|number| vec![number]).collect::<Vec<_>>()
    );
}

#[test]
fn an_explicit_project_wins() {
    assert!(matches!(
        resolve_project(Some("p"), Some("w")),
        Ok(ProjectSource::Explicit("p"))
    ));
    assert!(matches!(
        resolve_project(Some("p"), None),
        Ok(ProjectSource::Explicit("p"))
    ));
    assert!(matches!(
        resolve_project(None, Some("w")),
        Ok(ProjectSource::Workspace("w"))
    ));
    assert!(matches!(
        resolve_project::<&str>(None, None),
        Err(message) if message == "no project was supplied; use --project or --workspace"
    ));
}

#[test]
fn a_workspace_has_to_hold_one_project() {
    let paths = |names: &[&str]| names.iter().map(|name| (*name).to_owned()).collect::<Vec<_>>();

    assert_eq!(
        select_project(&paths(&[]), "/w"),
        Err("no .4DProject file was found under /w".to_owned())
    );
    assert_eq!(select_project(&paths(&["/w/a"]), "/w"), Ok(()));
    assert_eq!(
        select_project(&paths(&["/w/a", "/w/b", "/w/c"]), "/w"),
        Err(
            "multiple .4DProject files were found; use --project:\n  /w/a\n  /w/b\n  /w/c"
                .to_owned()
        )
    );
}

#[test]
fn an_explicit_project_is_checked() {
    let extension = |text: &str| Some(text.to_owned());

    assert_eq!(
        validate_project(true, &extension("4dPROJECT"), "/p"),
        Ok(())
    );
    assert_eq!(
        validate_project(false, &extension("4DProject"), "/p"),
        Err("4D project does not exist: /p".to_owned())
    );
    assert_eq!(
        validate_project(true, &extension("txt"), "/p"),
        Err("the project path does not end in .4DProject: /p".to_owned())
    );
    assert_eq!(
        validate_project(true, &None, "/p"),
        Err("the project path does not end in .4DProject: /p".to_owned())
    );
}

#[test]
fn the_tool_is_checked() {
    assert_eq!(validate_executable(true, true, "/t"), Ok(()));
    assert_eq!(
        validate_executable(false, false, "/t"),
        Err("tool4d does not exist: /t".to_owned())
    );
    assert_eq!(
        validate_executable(true, false, "/t"),
        Err("tool4d path is not a file: /t".to_owned())
    );
}
