//! The agent editor's form rules, decided without the editor: the type a
//! submitted create uses, and the name a chosen folder gives an unnamed
//! agent.

use crate::app_state::SHELL_AGENT_TYPE;
use crate::avatar::DEFAULT_AGENT_AVATAR;
use crate::paths::{file_name, file_name_run, run_of};
use crate::text::{all_ws, lead_ws_exec, trim, trimmed};
use vstd::prelude::*;
use vstd::string::StringSliceAdditionalSpecFns;

verus! {

/// The agent type a submitted create uses: a companion is a shell agent
/// by definition, whatever the type field holds.
pub fn created_agent_type(creating_a_companion: bool, chosen: &str) -> (r: String)
    ensures
        r@ == if creating_a_companion {
            SHELL_AGENT_TYPE@
        } else {
            chosen@
        },
{
    if creating_a_companion {
        SHELL_AGENT_TYPE.to_owned()
    } else {
        chosen.to_owned()
    }
}

/// The name an unnamed agent takes from the folder it was given: the
/// folder's last component, when the name field holds nothing but
/// whitespace and the folder has a last component that is a name.
pub fn name_from_folder(current_name: &str, folder: &str) -> (r: Option<String>)
    ensures
        r is Some <==> all_ws(current_name.spec_bytes()) && file_name_run(folder.spec_bytes()) is Some,
        r matches Some(s) ==> vstd::utf8::encode_utf8(s@) == run_of(folder.spec_bytes(), file_name_run(
            folder.spec_bytes(),
        ).unwrap()),
{
    let n = current_name.as_bytes();
    if lead_ws_exec(n) != n.len() {
        return None;
    }
    match file_name(folder) {
        Some(name) => Some(name.to_owned()),
        None => None,
    }
}

/// The three fields both submit paths read, trimmed.
#[derive(Debug, Clone, PartialEq, Eq)]
pub struct AgentFields {
    pub folder: String,
    pub name: String,
    pub avatar: String,
}

/// Why the form cannot be submitted, in the order the rules are checked.
#[derive(Debug, Clone, Copy, PartialEq, Eq, Structural)]
pub enum FieldError {
    /// The folder is blank, or is not a directory.
    ChooseFolder,
    /// The name is blank.
    EnterName,
}

impl FieldError {
    /// The localization key of the message the editor shows.
    pub fn message_key(self) -> (r: &'static str)
        ensures
            r@ == match self {
                FieldError::ChooseFolder => "agent_editor.error_choose_folder"@,
                FieldError::EnterName => "agent_editor.error_enter_name"@,
            },
    {
        match self {
            FieldError::ChooseFolder => "agent_editor.error_choose_folder",
            FieldError::EnterName => "agent_editor.error_enter_name",
        }
    }
}

/// Whether the form has everything required to submit: a name, and a
/// folder that is a directory. `folder_is_dir` says whether the trimmed
/// folder path names a directory.
pub fn can_submit(name: &str, folder_path: &str, folder_is_dir: bool) -> (r: bool)
    ensures
        r == (trimmed(name.spec_bytes()).len() > 0 && trimmed(folder_path.spec_bytes()).len() > 0
            && folder_is_dir),
{
    trim(name).as_bytes().len() != 0 && trim(folder_path).as_bytes().len() != 0 && folder_is_dir
}

/// The fields both submit paths read, validated and trimmed: the folder is
/// checked first, then the name; the avatar may be blank. `folder_is_dir`
/// says whether the trimmed folder path names a directory.
pub fn validated_fields(folder_path: &str, folder_is_dir: bool, name: &str, avatar: &str) -> (r: Result<
    AgentFields,
    FieldError,
>)
    ensures
        match r {
            Err(FieldError::ChooseFolder) => trimmed(folder_path.spec_bytes()).len() == 0 || !folder_is_dir,
            Err(FieldError::EnterName) => trimmed(folder_path.spec_bytes()).len() > 0 && folder_is_dir
                && trimmed(name.spec_bytes()).len() == 0,
            Ok(fields) => trimmed(folder_path.spec_bytes()).len() > 0 && folder_is_dir && trimmed(
                name.spec_bytes(),
            ).len() > 0 && vstd::utf8::encode_utf8(fields.folder@) == trimmed(folder_path.spec_bytes())
                && vstd::utf8::encode_utf8(fields.name@) == trimmed(name.spec_bytes())
                && vstd::utf8::encode_utf8(fields.avatar@) == trimmed(avatar.spec_bytes()),
        },
{
    let folder = trim(folder_path);
    if folder.as_bytes().len() == 0 || !folder_is_dir {
        return Err(FieldError::ChooseFolder);
    }
    let name = trim(name);
    if name.as_bytes().len() == 0 {
        return Err(FieldError::EnterName);
    }
    Ok(AgentFields { folder: folder.to_owned(), name: name.to_owned(), avatar: trim(avatar).to_owned() })
}

/// Whether the editor creates a companion rather than a standalone agent:
/// only when creating, since an edit never turns an agent into one.
pub fn creating_a_companion(editing: bool, prefill_is_companion: bool) -> (r: bool)
    ensures
        r == (!editing && prefill_is_companion),
{
    !editing && prefill_is_companion
}

/// An agent being edited, as far as the editor's fields start from it.
#[derive(Debug, Clone, PartialEq, Eq)]
pub struct EditedAgent {
    pub name: String,
    pub avatar: String,
    pub folder: String,
    pub agent_type: String,
    pub description: String,
    pub persona_id: Option<u128>,
}

/// What a new agent starts from when the editor is opened to create one.
#[derive(Debug, Clone, PartialEq, Eq, Default)]
pub struct AgentPrefill {
    pub name: Option<String>,
    pub avatar: Option<String>,
    pub folder: Option<String>,
    pub agent_type: Option<String>,
    pub persona_id: Option<u128>,
}

/// The values the editor's fields open with.
#[derive(Debug, Clone, PartialEq, Eq)]
pub struct InitialFields {
    pub name: String,
    pub avatar: String,
    pub folder: String,
    pub agent_type: String,
    pub description: String,
    pub persona_id: Option<u128>,
}

/// The first of the edited agent's value, the prefill's, and the default.
pub open spec fn first_of(edited: Option<Seq<char>>, prefilled: Option<Seq<char>>, fallback: Seq<char>) -> Seq<char> {
    match edited {
        Some(v) => v,
        None => match prefilled {
            Some(v) => v,
            None => fallback,
        },
    }
}

pub open spec fn opt_view(s: Option<String>) -> Option<Seq<char>> {
    match s {
        Some(v) => Some(v@),
        None => None,
    }
}

fn pick(edited: Option<&String>, prefilled: &Option<String>, fallback: &str) -> (r: String)
    ensures
        r@ == first_of(
            match edited {
                Some(v) => Some(v@),
                None => None,
            },
            opt_view(*prefilled),
            fallback@,
        ),
{
    match edited {
        Some(v) => v.clone(),
        None => match prefilled {
            Some(v) => v.clone(),
            None => fallback.to_owned(),
        },
    }
}

/// What each field of the editor opens with: the edited agent's value when
/// an agent is being edited, else the prefill's, else the default - an
/// empty name and folder, the default avatar, and `default_agent_type`. A
/// description comes only from the edited agent; the persona from the
/// edited agent, else the prefill.
pub fn initial_fields(editing: Option<&EditedAgent>, prefill: &AgentPrefill, default_agent_type: &str) -> (r: InitialFields)
    ensures
        ({
            let e = editing;
            &&& r.name@ == first_of(
                match e {
                    Some(a) => Some(a.name@),
                    None => None,
                },
                opt_view(prefill.name),
                Seq::empty(),
            )
            &&& r.avatar@ == first_of(
                match e {
                    Some(a) => Some(a.avatar@),
                    None => None,
                },
                opt_view(prefill.avatar),
                DEFAULT_AGENT_AVATAR@,
            )
            &&& r.folder@ == first_of(
                match e {
                    Some(a) => Some(a.folder@),
                    None => None,
                },
                opt_view(prefill.folder),
                Seq::empty(),
            )
            &&& r.agent_type@ == first_of(
                match e {
                    Some(a) => Some(a.agent_type@),
                    None => None,
                },
                opt_view(prefill.agent_type),
                default_agent_type@,
            )
            &&& r.description@ == match e {
                Some(a) => a.description@,
                None => Seq::empty(),
            }
            &&& r.persona_id == match e {
                Some(a) => a.persona_id,
                None => prefill.persona_id,
            }
        }),
{
    proof {
        reveal_strlit("");
    }
    match editing {
        Some(a) => InitialFields {
            name: pick(Some(&a.name), &prefill.name, ""),
            avatar: pick(Some(&a.avatar), &prefill.avatar, DEFAULT_AGENT_AVATAR),
            folder: pick(Some(&a.folder), &prefill.folder, ""),
            agent_type: pick(Some(&a.agent_type), &prefill.agent_type, default_agent_type),
            description: a.description.clone(),
            persona_id: a.persona_id,
        },
        None => InitialFields {
            name: pick(None, &prefill.name, ""),
            avatar: pick(None, &prefill.avatar, DEFAULT_AGENT_AVATAR),
            folder: pick(None, &prefill.folder, ""),
            agent_type: pick(None, &prefill.agent_type, default_agent_type),
            description: String::new(),
            persona_id: prefill.persona_id,
        },
    }
}

/// `Some(s)`, or nothing when `s` is empty: an empty field is not sent.
pub open spec fn sent(s: Seq<char>) -> Option<Seq<char>> {
    if s.len() == 0 {
        None
    } else {
        Some(s)
    }
}

fn non_empty(s: String) -> (r: Option<String>)
    ensures
        opt_view(r) == sent(s@),
{
    let n = s.as_str().as_bytes().len();
    proof {
        vstd::utf8::encode_utf8_decode_utf8(s@);
        if n == 0 {
            assert(vstd::utf8::encode_utf8(s@) =~= Seq::<u8>::empty());
            vstd::utf8::encode_utf8_decode_utf8(Seq::<char>::empty());
            assert(vstd::utf8::encode_utf8(Seq::<char>::empty()) =~= Seq::<u8>::empty()) by {
                reveal_with_fuel(vstd::utf8::encode_utf8, 1);
            }
        } else if s@.len() == 0 {
            assert(s@ =~= Seq::<char>::empty());
            reveal_with_fuel(vstd::utf8::encode_utf8, 1);
        }
    }
    if n == 0 {
        None
    } else {
        Some(s)
    }
}

/// What a create submits, besides the form's fixed choices.
#[derive(Debug, Clone, PartialEq, Eq)]
pub struct CreateRequest {
    pub folder: String,
    pub name: Option<String>,
    pub avatar: Option<String>,
    pub agent_type: Option<String>,
    pub shell_command: Option<String>,
    pub description: String,
}

/// What an edit submits, besides the form's fixed choices.
#[derive(Debug, Clone, PartialEq, Eq)]
pub struct EditRequest {
    pub name: String,
    pub avatar: String,
    pub folder: Option<String>,
    pub agent_type: Option<String>,
    pub persona_id: Option<u128>,
    pub persona_changed: bool,
    pub description: String,
}

/// The create a validated form submits: the name always, the avatar, type
/// and shell command only when not empty (the command and description
/// trimmed). `agent_type` is the type the create uses.
pub fn create_request(fields: AgentFields, agent_type: String, shell_command: &str, description: &str) -> (r: CreateRequest)
    ensures
        r.folder@ == fields.folder@,
        opt_view(r.name) == Some(fields.name@),
        opt_view(r.avatar) == sent(fields.avatar@),
        opt_view(r.agent_type) == sent(agent_type@),
        match r.shell_command {
            Some(c) => vstd::utf8::encode_utf8(c@) == trimmed(shell_command.spec_bytes())
                && trimmed(shell_command.spec_bytes()).len() > 0,
            None => trimmed(shell_command.spec_bytes()).len() == 0,
        },
        vstd::utf8::encode_utf8(r.description@) == trimmed(description.spec_bytes()),
{
    let command = trim(shell_command);
    let shell = if command.as_bytes().len() == 0 {
        None
    } else {
        Some(command.to_owned())
    };
    CreateRequest {
        folder: fields.folder,
        name: Some(fields.name),
        avatar: non_empty(fields.avatar),
        agent_type: non_empty(agent_type),
        shell_command: shell,
        description: trim(description).to_owned(),
    }
}

/// The edit a validated form submits: name and avatar as they stand, the
/// folder, the type only when not empty, the persona and whether it changed
/// from the one the editor opened with, and the description trimmed.
pub fn edit_request(
    fields: AgentFields,
    agent_type: String,
    persona_id: Option<u128>,
    original_persona_id: Option<u128>,
    description: &str,
) -> (r: EditRequest)
    ensures
        r.name@ == fields.name@,
        r.avatar@ == fields.avatar@,
        opt_view(r.folder) == Some(fields.folder@),
        opt_view(r.agent_type) == sent(agent_type@),
        r.persona_id == persona_id,
        r.persona_changed == (persona_id != original_persona_id),
        vstd::utf8::encode_utf8(r.description@) == trimmed(description.spec_bytes()),
{
    let changed = match (persona_id, original_persona_id) {
        (Some(a), Some(b)) => a != b,
        (None, None) => false,
        _ => true,
    };
    EditRequest {
        name: fields.name,
        avatar: fields.avatar,
        folder: Some(fields.folder),
        agent_type: non_empty(agent_type),
        persona_id,
        persona_changed: changed,
        description: trim(description).to_owned(),
    }
}

} // verus!
