use goto_project::{Document, Entry, Field, GotoError, Manager};

fn text(s: &str) -> Field {
    Field::Text(s.to_owned())
}

fn list(items: &[&str]) -> Field {
    Field::List(items.iter().map(|s| s.to_string()).collect())
}

fn table(fields: Vec<(&str, Field)>) -> Entry {
    Entry::Table(fields.into_iter().map(|(k, v)| (k.to_owned(), v)).collect())
}

fn document(entries: Vec<(&str, Entry)>) -> Document {
    Document::Table(entries.into_iter().map(|(k, v)| (k.to_owned(), v)).collect())
}

/// The configuration
///
/// ```yaml
/// awesome-project:
///   path: ~/Devel/Projects/awesome-project/
///
/// yet_another_project:
///   path: ~/Devel/Projects/yet_another_project
///   instructions:
///     - source ~/Devel/Envs/yet_another_project/bin/activate
///     - export FLASK_APP=app.py
///     - export FLASK_DEBUG=1
/// ```
fn config_content() -> Document {
    document(vec![
        ("awesome-project", table(vec![("path", text("~/Devel/Projects/awesome-project/"))])),
        (
            "yet_another_project",
            table(vec![
                ("path", text("~/Devel/Projects/yet_another_project")),
                (
                    "instructions",
                    list(&[
                        "source ~/Devel/Envs/yet_another_project/bin/activate",
                        "export FLASK_APP=app.py",
                        "export FLASK_DEBUG=1",
                    ]),
                ),
            ]),
        ),
    ])
}

fn parsed(doc: Document) -> Manager {
    match Manager::parse(&doc) {
        Ok(m) => m,
        Err(e) => panic!("parse failed: {:?}", e),
    }
}

#[test]
fn parse_returns_all_founded_projects() {
    let projects = parsed(config_content());

    assert_eq!(projects.list_projects().len(), 2);
}

#[test]
fn parse_should_panic_on_invalid_content() {
    let got = Manager::parse(&Document::Other);

    assert!(matches!(got, Err(GotoError::ParseError(m)) if m.is_empty()));
}

#[test]
fn list_returns_all_project_names() {
    let projects = parsed(config_content());

    assert_eq!(projects.list_projects(), vec!["awesome-project", "yet_another_project"]);
}

#[test]
fn project_with_instructions_parsed_correctly() {
    let projects = parsed(config_content());
    let project = projects.get_project("yet_another_project").unwrap();

    assert_eq!(project.path, "~/Devel/Projects/yet_another_project");
    assert_eq!(
        project.instructions,
        vec![
            "source ~/Devel/Envs/yet_another_project/bin/activate",
            "export FLASK_APP=app.py",
            "export FLASK_DEBUG=1",
        ]
    )
}

#[test]
fn projects_project_without_instructions_parsed_correctly() {
    let projects = parsed(config_content());
    let project = projects.get_project("awesome-project").unwrap();

    assert_eq!(project.path, "~/Devel/Projects/awesome-project/");
    assert_eq!(project.instructions.len(), 0);
}

#[test]
fn manager_project_without_instructions_parsed_correctly() {
    let manager = parsed(config_content());

    let project = manager.get_project("awesome-project").unwrap();

    assert_eq!(project.path, "~/Devel/Projects/awesome-project/");
    assert_eq!(project.instructions.len(), 0);
}

#[test]
fn project_with_instruction_parsed_correctly() {
    let manager = parsed(config_content());

    let project = manager.get_project("yet_another_project").unwrap();

    assert_eq!(project.path, "~/Devel/Projects/yet_another_project");
    assert_eq!(
        project.instructions,
        vec![
            "source ~/Devel/Envs/yet_another_project/bin/activate".to_owned(),
            "export FLASK_APP=app.py".to_owned(),
            "export FLASK_DEBUG=1".to_owned(),
        ]
    )
}

#[test]
fn parses_all_defined_projects() {
    let manager = parsed(config_content());

    assert_eq!(manager.list_projects().len(), 2);
}

#[test]
fn will_panic_for_wrong_config() {
    // awesome: kek
    let got = Manager::parse(&document(vec![("awesome", Entry::Other)]));

    assert_eq!(got.err(), Some(GotoError::ParseError("awesome".to_owned())));
}

#[test]
fn returns_names_for_all_defined_projects() {
    let manager = parsed(config_content());

    let got = manager.list_projects();

    assert_eq!(got, vec!["awesome-project", "yet_another_project"]);
}

#[test]
fn returns_empty_vector_if_no_projects_defined() {
    let manager = parsed(Document::Table(vec![]));

    let got = manager.list_projects();

    assert_eq!(got.len(), 0);
}

#[test]
fn returns_project() {
    let manager = parsed(config_content());

    let got = manager.get_project("awesome-project").unwrap();

    assert_eq!(got.path, "~/Devel/Projects/awesome-project/");
    assert_eq!(got.instructions.len(), 0);
}

#[test]
fn panics_if_project_not_found() {
    let manager = parsed(Document::Table(vec![]));

    let got = manager.get_project("awesome-project");

    assert_eq!(got.err(), Some(GotoError::ProjectNotFound("awesome-project".to_owned())));
}

#[test]
fn lookup_is_case_sensitive() {
    let manager = parsed(config_content());

    assert_eq!(
        manager.get_project("Awesome-Project").err(),
        Some(GotoError::ProjectNotFound("Awesome-Project".to_owned()))
    );
}

#[test]
fn list_is_sorted_regardless_of_declaration_order() {
    let manager = parsed(document(vec![
        ("zeta", table(vec![("path", text("/z"))])),
        ("alpha", table(vec![("path", text("/a"))])),
        ("Mid", table(vec![("path", text("/m"))])),
        ("alphabet", table(vec![("path", text("/ab"))])),
    ]));

    assert_eq!(manager.list_projects(), vec!["Mid", "alpha", "alphabet", "zeta"]);
}

#[test]
fn a_later_declaration_of_a_name_replaces_an_earlier_one() {
    let manager = parsed(document(vec![
        ("p", table(vec![("path", text("/first"))])),
        ("q", table(vec![("path", text("/q"))])),
        ("p", table(vec![("path", text("/second")), ("instructions", list(&["x"]))])),
    ]));

    assert_eq!(manager.list_projects(), vec!["p", "q"]);
    let p = manager.get_project("p").unwrap();
    assert_eq!(p.path, "/second");
    assert_eq!(p.instructions, vec!["x"]);
}

#[test]
fn unknown_fields_are_ignored() {
    let manager = parsed(document(vec![(
        "p",
        table(vec![("name", text("Example")), ("path", text("/p")), ("extra", Field::Other)]),
    )]));

    assert_eq!(manager.get_project("p").unwrap().path, "/p");
}

#[test]
fn missing_path_is_a_parse_error() {
    let got = Manager::parse(&document(vec![
        ("good", table(vec![("path", text("/g"))])),
        ("bad", table(vec![("instructions", list(&["x"]))])),
    ]));

    assert_eq!(got.err(), Some(GotoError::ParseError("bad".to_owned())));
}

#[test]
fn path_that_is_not_text_is_a_parse_error() {
    let got = Manager::parse(&document(vec![("bad", table(vec![("path", list(&["/a"]))]))]));

    assert_eq!(got.err(), Some(GotoError::ParseError("bad".to_owned())));
}

#[test]
fn instructions_that_are_not_a_list_are_a_parse_error() {
    let got = Manager::parse(&document(vec![(
        "bad",
        table(vec![("path", text("/b")), ("instructions", text("make"))]),
    )]));

    assert_eq!(got.err(), Some(GotoError::ParseError("bad".to_owned())));
}

#[test]
fn the_first_invalid_entry_is_named() {
    let got = Manager::parse(&document(vec![
        ("ok", table(vec![("path", text("/o"))])),
        ("second", Entry::Other),
        ("third", table(vec![])),
    ]));

    assert_eq!(got.err(), Some(GotoError::ParseError("second".to_owned())));
}

#[test]
fn open_project_composes_the_command_of_the_named_project() {
    let manager = parsed(config_content());

    assert_eq!(
        manager.open_project("yet_another_project", "/bin/bash").unwrap(),
        "cd ~/Devel/Projects/yet_another_project && source ~/Devel/Envs/yet_another_project/bin/activate && export FLASK_APP=app.py && export FLASK_DEBUG=1 && /bin/bash && clear"
    );
}

#[test]
fn open_project_fails_for_an_unknown_name() {
    let manager = parsed(config_content());

    assert_eq!(
        manager.open_project("missing", "/bin/bash").err(),
        Some(GotoError::ProjectNotFound("missing".to_owned()))
    );
}
