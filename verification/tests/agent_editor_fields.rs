use knot::agent_editor::create_request;
use knot::agent_editor::edit_request;
use knot::agent_editor::initial_fields;
use knot::agent_editor::AgentPrefill;
use knot::agent_editor::EditedAgent;
use knot::agent_editor::can_submit;
use knot::agent_editor::creating_a_companion;
use knot::agent_editor::validated_fields;
use knot::agent_editor::AgentFields;
use knot::agent_editor::FieldError;
use knot::agent_editor::name_from_folder;

const FOLDER: &str = "/Users/dana/code/widget";

#[test]
fn a_blank_name_takes_the_folders_name() {
    assert_eq!(name_from_folder("", FOLDER).as_deref(), Some("widget"));
}

#[test]
fn a_whitespace_only_name_counts_as_blank() {
    assert_eq!(name_from_folder("   ", FOLDER).as_deref(), Some("widget"));
    assert_eq!(name_from_folder(" \t\n ", FOLDER).as_deref(), Some("widget"));
}

#[test]
fn a_typed_name_is_never_replaced() {
    assert_eq!(name_from_folder("Planner", FOLDER), None);
}

#[test]
fn a_padded_name_is_still_a_name() {
    assert_eq!(name_from_folder("  Planner  ", FOLDER), None);
}

#[test]
fn a_second_folder_does_not_rename_an_already_filled_field() {
    let first = name_from_folder("", FOLDER).expect("the blank field was filled");
    assert_eq!(first, "widget");

    assert_eq!(name_from_folder(&first, "/Users/dana/code/gadget"),
               None,
               "the name the first folder supplied is a name like any other");
}

#[test]
fn a_folder_with_no_name_leaves_the_field_alone() {
    assert_eq!(name_from_folder("", "/"), None);
    assert_eq!(name_from_folder("", ""), None);
    assert_eq!(name_from_folder("", ".."), None);
}

#[test]
fn a_typed_name_and_a_nameless_folder_change_nothing() {
    assert_eq!(name_from_folder("Planner", "/"), None);
}

#[test]
fn a_relative_folder_still_names_the_agent() {
    assert_eq!(name_from_folder("", "code/widget").as_deref(), Some("widget"));
}

#[test]
fn a_trailing_slash_still_names_the_agent() {
    assert_eq!(name_from_folder("", "/Users/dana/code/widget/").as_deref(), Some("widget"));
}

#[test]
fn a_folder_ending_in_a_dot_component_is_named_by_the_one_before() {
    assert_eq!(name_from_folder("", "/Users/dana/code/widget/.").as_deref(), Some("widget"));
}

#[test]
fn the_form_is_submittable_only_with_a_name_and_a_real_folder() {
    assert!(can_submit("Builder", " /tmp/work ", true));
    assert!(!can_submit("  ", "/tmp/work", true));
    assert!(!can_submit("Builder", " \t", true));
    assert!(!can_submit("Builder", "/tmp/work", false));
}

#[test]
fn the_folder_is_checked_before_the_name() {
    assert_eq!(validated_fields("  ", false, "", ""), Err(FieldError::ChooseFolder));
    assert_eq!(validated_fields("/tmp/missing", false, "Builder", ""), Err(FieldError::ChooseFolder));
    assert_eq!(validated_fields("/tmp/work", true, " \n ", ""), Err(FieldError::EnterName));
    assert_eq!(FieldError::ChooseFolder.message_key(), "agent_editor.error_choose_folder");
    assert_eq!(FieldError::EnterName.message_key(), "agent_editor.error_enter_name");
}

#[test]
fn valid_fields_come_back_trimmed() {
    assert_eq!(validated_fields("  /tmp/work\n", true, " Builder ", " 🦊 "),
               Ok(AgentFields { folder: "/tmp/work".to_string(),
                                name: "Builder".to_string(),
                                avatar: "🦊".to_string() }));
    assert_eq!(validated_fields("/tmp/work", true, "Builder", "   ").map(|f| f.avatar),
               Ok(String::new()));
}

#[test]
fn only_a_create_makes_a_companion() {
    assert!(creating_a_companion(false, true));
    assert!(!creating_a_companion(true, true));
    assert!(!creating_a_companion(false, false));
}

fn fields() -> AgentFields {
    AgentFields { folder: "/tmp/work".to_string(), name: "Builder".to_string(), avatar: String::new() }
}

#[test]
fn an_edit_opens_on_the_agent_and_a_create_on_the_prefill() {
    let agent = EditedAgent { name: "Builder".to_string(),
                              avatar: "🦊".to_string(),
                              folder: "/tmp/work".to_string(),
                              agent_type: "codex".to_string(),
                              description: "Builds".to_string(),
                              persona_id: Some(7) };
    let prefill = AgentPrefill { name: Some("Other".to_string()),
                                 folder: Some("/tmp/other".to_string()),
                                 persona_id: Some(9),
                                 ..AgentPrefill::default() };

    let edit = initial_fields(Some(&agent), &prefill, "coder");
    assert_eq!((edit.name.as_str(), edit.avatar.as_str(), edit.folder.as_str()), ("Builder", "🦊", "/tmp/work"));
    assert_eq!((edit.agent_type.as_str(), edit.description.as_str(), edit.persona_id), ("codex", "Builds", Some(7)));

    let create = initial_fields(None, &prefill, "coder");
    assert_eq!((create.name.as_str(), create.folder.as_str(), create.persona_id), ("Other", "/tmp/other", Some(9)));
    assert_eq!(create.avatar, "🤖", "no avatar anywhere opens on the default");
    assert_eq!(create.agent_type, "coder");
    assert_eq!(create.description, "");

    let blank = initial_fields(None, &AgentPrefill::default(), "coder");
    assert_eq!((blank.name.as_str(), blank.folder.as_str(), blank.persona_id), ("", "", None));
}

#[test]
fn a_create_sends_empty_fields_as_nothing() {
    let request = create_request(fields(), String::new(), "  ", " notes ");
    assert_eq!(request.name.as_deref(), Some("Builder"));
    assert_eq!(request.folder, "/tmp/work");
    assert_eq!(request.avatar, None);
    assert_eq!(request.agent_type, None);
    assert_eq!(request.shell_command, None);
    assert_eq!(request.description, "notes");

    let full = create_request(AgentFields { avatar: "🦊".to_string(), ..fields() }, "shell".to_string(), " npm run dev ", "");
    assert_eq!(full.avatar.as_deref(), Some("🦊"));
    assert_eq!(full.agent_type.as_deref(), Some("shell"));
    assert_eq!(full.shell_command.as_deref(), Some("npm run dev"));
}

#[test]
fn an_edit_says_whether_the_persona_changed() {
    let same = edit_request(fields(), "coder".to_string(), Some(3), Some(3), "");
    assert!(!same.persona_changed);
    assert_eq!(same.folder.as_deref(), Some("/tmp/work"));
    assert_eq!(same.agent_type.as_deref(), Some("coder"));

    assert!(edit_request(fields(), String::new(), Some(3), None, "").persona_changed);
    assert!(edit_request(fields(), String::new(), None, Some(3), "").persona_changed);
    assert!(!edit_request(fields(), String::new(), None, None, "").persona_changed);
    assert_eq!(edit_request(fields(), String::new(), None, None, "").agent_type, None);
}
