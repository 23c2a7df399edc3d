use flowforge::session::export::{export_markdown, TOOL_OUTPUT_FOLD_THRESHOLD};
use flowforge::session::history::EditMessageError;
use flowforge::session::search::{fts5_escape, search_query};
use flowforge::session::store::SessionStore;
use flowforge::session::types::{
    Attachment, AttachmentKind, AttachmentSource, Message, Mode, ModelSelection, Role, Session,
    SessionStatus, StopReason, ToolCall,
};

/// A store with a clock and a supply of ids.
struct Desk {
    store: SessionStore,
    ticks: i64,
}

impl Desk {
    fn new() -> Desk {
        Desk { store: SessionStore::new(), ticks: 1_700_000_000_000 }
    }

    fn now(&mut self) -> i64 {
        self.ticks += 1;
        self.ticks
    }

    fn id(&mut self) -> String {
        let n = self.now();
        format!("id-{n}")
    }

    fn create_session(&mut self, goal: Option<&str>) -> Session {
        let (id, now) = (self.id(), self.now());
        self.store.create_session(id, goal.map(String::from), now)
    }

    fn create_draft_session(&mut self) -> Session {
        let (id, now) = (self.id(), self.now());
        self.store.create_draft_session(id, now)
    }

    fn add_message(&mut self, session: &str, role: Role, content: &str) -> Message {
        let (id, now) = (self.id(), self.now());
        self.store.add_message(id, session, role, content.to_string(), title(content), now)
    }

    fn add_with(
        &mut self,
        session: &str,
        role: Role,
        content: &str,
        attachments: Vec<Attachment>,
    ) -> Message {
        let (id, now) = (self.id(), self.now());
        self.store.add_message_with_attachments(
            id,
            session,
            role,
            content.to_string(),
            attachments,
            title(content),
            now,
        )
    }

    fn add_tool_result(&mut self, session: &str, call: &str, content: &str) -> Message {
        let (id, now) = (self.id(), self.now());
        self.store.add_tool_result_message(id, session, call.to_string(), content.to_string(), now)
    }

    fn fork(&mut self, session: &str) -> Option<Session> {
        let count = self.store.get_messages(session).len();
        let ids: Vec<String> = (0..count).map(|_| self.id()).collect();
        let (id, now) = (self.id(), self.now());
        self.store.fork_session(session, id, &ids, now)
    }

    fn edit(
        &mut self,
        session: &str,
        message: &str,
        content: &str,
        attachments: Option<Vec<Attachment>>,
    ) -> Result<String, EditMessageError> {
        let now = self.now();
        self.store.edit_user_message(session, message, content.to_string(), attachments, now)
    }

    fn set_phenotype(&mut self, session: &str, name: Option<&str>) {
        let now = self.now();
        self.store.set_session_phenotype(session, name.map(String::from), now);
    }

    fn set_title(&mut self, session: &str, name: &str) {
        let now = self.now();
        self.store.set_title(session, name.to_string(), now);
    }
}

/// The first two words, with a capital at the start.
fn title(content: &str) -> String {
    let words: Vec<&str> = content.split_whitespace().take(2).collect();
    let mut t = words.join(" ");
    if let Some(first) = t.get(0..1).map(|c| c.to_uppercase()) {
        t.replace_range(0..1, &first);
    }
    t
}

fn model_sel(connection: &str, model: &str) -> ModelSelection {
    ModelSelection { connection: connection.to_string(), model: model.to_string() }
}

fn image() -> Attachment {
    Attachment {
        kind: AttachmentKind::Image,
        media_type: "image/png".to_string(),
        source: AttachmentSource::Path("/tmp/shot.png".to_string()),
        name: Some("shot.png".to_string()),
        bytes: 2048,
    }
}

fn call(name: &str, arguments: &str) -> ToolCall {
    ToolCall {
        id: "call_1".to_string(),
        name: name.to_string(),
        arguments: arguments.to_string(),
    }
}

// --- titles -----------------------------------------------------------------

#[test]
fn first_user_message_auto_titles_untitled_session() {
    let mut d = Desk::new();
    let s = d.create_session(None);
    assert!(s.title.is_none());
    d.add_message(&s.id, Role::User, "fix the parser bug");
    assert_eq!(d.store.list_sessions()[0].title.as_deref(), Some("Fix the"));
}

#[test]
fn second_user_message_does_not_retitle() {
    let mut d = Desk::new();
    let s = d.create_session(None);
    d.add_message(&s.id, Role::User, "fix the parser bug");
    d.add_message(&s.id, Role::User, "now ship it");
    assert_eq!(d.store.list_sessions()[0].title.as_deref(), Some("Fix the"));
}

#[test]
fn assistant_first_message_does_not_title() {
    let mut d = Desk::new();
    let s = d.create_session(None);
    d.add_message(&s.id, Role::Assistant, "hi there");
    assert!(d.store.list_sessions()[0].title.is_none());
}

#[test]
fn set_title_overrides_and_persists() {
    let mut d = Desk::new();
    let s = d.create_session(None);
    d.add_message(&s.id, Role::User, "fix the parser bug");
    d.set_title(&s.id, "Custom name");
    assert_eq!(d.store.list_sessions()[0].title.as_deref(), Some("Custom name"));
}

#[test]
fn set_title_unknown_session_is_noop() {
    let mut d = Desk::new();
    d.set_title("nope", "x");
    assert!(d.store.list_sessions().is_empty());
}

// --- sessions ------------------------------------------------------------------

#[test]
fn delete_session_removes_session_and_messages() {
    let mut d = Desk::new();
    let s = d.create_session(None);
    d.add_message(&s.id, Role::User, "hello");
    assert_eq!(d.store.list_sessions().len(), 1);
    assert!(d.store.delete_session(&s.id));
    assert!(d.store.list_sessions().is_empty());
    assert!(d.store.get_messages(&s.id).is_empty());
}

#[test]
fn delete_session_unknown_is_noop() {
    let mut d = Desk::new();
    d.create_session(None);
    assert!(!d.store.delete_session("nope"));
    assert_eq!(d.store.list_sessions().len(), 1);
}

#[test]
fn session_and_message_roundtrip() {
    let mut d = Desk::new();
    let s = d.create_session(Some("fix bug"));
    assert_eq!(d.store.list_sessions().len(), 1);
    d.add_message(&s.id, Role::User, "hello");
    d.add_message(&s.id, Role::Assistant, "hi");
    let msgs = d.store.get_messages(&s.id);
    assert_eq!(msgs.len(), 2);
    assert_eq!(msgs[0].role, Role::User);
    assert_eq!(msgs[1].content, "hi");
}

#[test]
fn draft_session_defers_persistence_until_first_message() {
    let mut d = Desk::new();
    let draft = d.create_draft_session();
    assert!(d.store.list_sessions().is_empty());
    assert_eq!(d.store.get_session(&draft.id).map(|s| s.id), Some(draft.id.clone()));
    d.add_message(&draft.id, Role::User, "summarize the parser");
    let listed = d.store.list_sessions();
    assert_eq!(listed.len(), 1);
    assert_eq!(listed[0].id, draft.id);
    assert!(listed[0].title.is_some(), "first message seeds the auto-title");
}

#[test]
fn untouched_draft_leaves_no_row() {
    let mut d = Desk::new();
    let draft = d.create_draft_session();
    assert!(d.store.list_sessions().is_empty());
    assert!(d.store.delete_session(&draft.id));
    assert!(d.store.get_session(&draft.id).is_none());
}

#[test]
fn config_write_flushes_a_draft() {
    let mut d = Desk::new();
    let draft = d.create_draft_session();
    let sel = model_sel("openai-main", "gpt-4o");
    let now = d.now();
    d.store.set_session_model(&draft.id, Some(sel.clone()), now);
    assert_eq!(d.store.list_sessions().len(), 1);
    assert_eq!(d.store.session_model(&draft.id), Some(sel));
}

#[test]
fn create_session_still_persists_immediately() {
    let mut d = Desk::new();
    let s = d.create_session(None);
    assert_eq!(d.store.list_sessions().len(), 1);
    assert_eq!(d.store.list_sessions()[0].id, s.id);
}

#[test]
fn sessions_are_listed_by_their_last_change() {
    let mut d = Desk::new();
    let a = d.create_session(None);
    let b = d.create_session(None);
    d.add_message(&a.id, Role::User, "hello again");
    let ids: Vec<String> = d.store.list_sessions().into_iter().map(|s| s.id).collect();
    assert_eq!(ids, vec![a.id.clone(), b.id]);
    let now = d.now();
    d.store.set_status(&a.id, SessionStatus::Other("done".to_string()), now);
    assert_eq!(
        d.store.get_session(&a.id).unwrap().status,
        SessionStatus::Other("done".to_string())
    );
}

// --- messages --------------------------------------------------------------------

#[test]
fn message_attachments_round_trip() {
    let mut d = Desk::new();
    let s = d.create_session(None);
    let attachments = vec![
        image(),
        Attachment {
            kind: AttachmentKind::Document,
            media_type: "application/pdf".to_string(),
            source: AttachmentSource::Inline("JVBERi0=".to_string()),
            name: None,
            bytes: 8,
        },
    ];
    d.add_with(&s.id, Role::User, "look at these", attachments.clone());
    let msgs = d.store.get_messages(&s.id);
    assert_eq!(msgs.len(), 1);
    assert_eq!(msgs[0].content, "look at these");
    assert_eq!(msgs[0].attachments.as_deref(), Some(attachments.as_slice()));
}

#[test]
fn plain_message_has_no_attachments() {
    let mut d = Desk::new();
    let s = d.create_session(None);
    d.add_message(&s.id, Role::User, "hi");
    assert!(d.store.get_messages(&s.id)[0].attachments.is_none());
}

#[test]
fn empty_attachments_persist_as_none() {
    let mut d = Desk::new();
    let s = d.create_session(None);
    d.add_with(&s.id, Role::User, "hi", Vec::new());
    assert!(d.store.get_messages(&s.id)[0].attachments.is_none());
}

#[test]
fn reconcile_relabels_orphaned_empty_assistant_row() {
    let mut d = Desk::new();
    let s = d.create_session(None);
    d.add_message(&s.id, Role::User, "hi");
    d.add_message(&s.id, Role::Assistant, "");
    let now = d.now();
    let changed = d.store.reconcile_orphaned_assistant_rows(&s.id, "[stopped: interrupted]", now);
    assert_eq!(changed, 1);
    let msgs = d.store.get_messages(&s.id);
    assert_eq!(msgs[1].content, "[stopped: interrupted]");
    assert_eq!(msgs[1].stop_reason, Some(StopReason::Interrupted));
}

#[test]
fn reconcile_leaves_non_orphan_rows_untouched() {
    let mut d = Desk::new();
    let s = d.create_session(None);
    d.add_message(&s.id, Role::Assistant, "real answer");
    let tc = d.add_message(&s.id, Role::Assistant, "");
    d.store.attach_tool_calls(&tc.id, &s.id, vec![call("view", "{}")]);
    let r = d.add_message(&s.id, Role::Assistant, "");
    d.store.set_message_reasoning(&r.id, &s.id, "thinking");
    d.add_message(&s.id, Role::User, "");

    let now = d.now();
    let changed = d.store.reconcile_orphaned_assistant_rows(&s.id, "[stopped: interrupted]", now);
    assert_eq!(changed, 0, "no genuine orphan present");
    let msgs = d.store.get_messages(&s.id);
    assert_eq!(msgs[0].content, "real answer");
    assert_eq!(msgs[1].content, "");
    assert!(msgs[1].tool_calls.is_some());
    assert_eq!(msgs[2].content, "");
    assert_eq!(msgs[2].reasoning.as_deref(), Some("thinking"));
    assert_eq!(msgs[3].content, "");
}

#[test]
fn set_message_reasoning_round_trips() {
    let mut d = Desk::new();
    let s = d.create_session(None);
    let m = d.add_message(&s.id, Role::Assistant, "");
    d.store.set_message_reasoning(&m.id, &s.id, "step 1: multiply 17 by 23");
    assert_eq!(
        d.store.get_messages(&s.id)[0].reasoning.as_deref(),
        Some("step 1: multiply 17 by 23")
    );
}

#[test]
fn set_message_reasoning_is_returned_by_set_message_content() {
    let mut d = Desk::new();
    let s = d.create_session(None);
    let m = d.add_message(&s.id, Role::Assistant, "");
    d.store.set_message_reasoning(&m.id, &s.id, "thinking...");
    let now = d.now();
    let finalized = d.store.set_message_content(&m.id, &s.id, "answer".to_string(), now);
    assert_eq!(finalized.content, "answer");
    assert_eq!(finalized.reasoning.as_deref(), Some("thinking..."));
}

#[test]
fn plain_message_has_no_reasoning() {
    let mut d = Desk::new();
    let s = d.create_session(None);
    d.add_message(&s.id, Role::Assistant, "hi");
    assert!(d.store.get_messages(&s.id)[0].reasoning.is_none());
}

#[test]
fn set_message_reasoning_unknown_message_is_noop() {
    let mut d = Desk::new();
    let s = d.create_session(None);
    d.store.set_message_reasoning("nope", &s.id, "orphan");
    assert!(d.store.get_messages(&s.id).is_empty());
}

#[test]
fn messages_keep_insertion_order_via_seq() {
    let mut d = Desk::new();
    let s = d.create_session(None);
    for i in 0..5 {
        d.add_message(&s.id, Role::User, &format!("msg {i}"));
    }
    let msgs = d.store.get_messages(&s.id);
    let contents: Vec<&str> = msgs.iter().map(|m| m.content.as_str()).collect();
    assert_eq!(contents, ["msg 0", "msg 1", "msg 2", "msg 3", "msg 4"]);
    let tail = d.store.get_messages_tail(&s.id, 2);
    let contents: Vec<&str> = tail.iter().map(|m| m.content.as_str()).collect();
    assert_eq!(contents, ["msg 3", "msg 4"]);
}

// --- originals and preheats --------------------------------------------------------

#[test]
fn put_and_get_compaction_original_round_trip() {
    let mut d = Desk::new();
    let s = d.create_session(None);
    let m = d.add_tool_result(&s.id, "call-1", "compressed");
    d.store.put_compaction_original(&s.id, &m.id, "abc123", "the full original blob");
    assert_eq!(
        d.store.compaction_original("abc123").as_deref(),
        Some("the full original blob")
    );
    assert!(d.store.compaction_original("missing").is_none());
}

#[test]
fn put_compaction_original_is_idempotent_on_key() {
    let mut d = Desk::new();
    let s = d.create_session(None);
    d.store.put_compaction_original(&s.id, "m1", "k", "first");
    d.store.put_compaction_original(&s.id, "m2", "k", "second");
    assert_eq!(d.store.compaction_original("k").as_deref(), Some("first"));
}

#[test]
fn compaction_originals_cascade_on_session_delete() {
    let mut d = Desk::new();
    let s = d.create_session(None);
    d.store.put_compaction_original(&s.id, "m1", "k", "blob");
    assert!(d.store.compaction_original("k").is_some());
    assert!(d.store.delete_session(&s.id));
    assert!(
        d.store.compaction_original("k").is_none(),
        "deleting a session must cascade-drop its compaction originals"
    );
}

#[test]
fn rehome_compaction_original_survives_child_session_delete() {
    let mut d = Desk::new();
    let parent = d.create_session(None);
    let child = d.create_session(None);
    d.store.put_compaction_original(&child.id, "m1", "kept", "the kept original");
    d.store.put_compaction_original(&child.id, "m2", "dropped", "the dropped original");
    d.store.rehome_compaction_original("kept", &parent.id);
    assert!(d.store.delete_session(&child.id));
    assert_eq!(
        d.store.compaction_original("kept").as_deref(),
        Some("the kept original"),
        "a re-homed original must survive the child session teardown"
    );
    assert!(
        d.store.compaction_original("dropped").is_none(),
        "an original left on the child session must still cascade away"
    );
}

#[test]
fn rehome_compaction_original_unknown_key_is_noop() {
    let mut d = Desk::new();
    let s = d.create_session(None);
    d.store.rehome_compaction_original("nope", &s.id);
    assert!(d.store.compaction_original("nope").is_none());
}

#[test]
fn a_preheat_is_read_back() {
    let mut d = Desk::new();
    let s = d.create_session(None);
    let m = d.add_message(&s.id, Role::User, "q");
    assert!(d.store.turn_preheat(&m.id).is_none());
    d.store.put_turn_preheat(&s.id, &m.id, 5, 2, 900);
    let p = d.store.turn_preheat(&m.id).unwrap();
    assert_eq!((p.preheated_count, p.preheated_used, p.preheated_bytes), (5, 2, 900));
}

// --- copies ----------------------------------------------------------------------------

#[test]
fn fork_session_copies_attachments() {
    let mut d = Desk::new();
    let s = d.create_session(None);
    d.add_with(&s.id, Role::User, "see", vec![image()]);
    let forked = d.fork(&s.id).unwrap();
    let msgs = d.store.get_messages(&forked.id);
    assert_eq!(msgs[0].attachments.as_deref(), Some([image()].as_slice()));
}

#[test]
fn fork_session_copies_reasoning() {
    let mut d = Desk::new();
    let s = d.create_session(None);
    let m = d.add_message(&s.id, Role::Assistant, "a");
    d.store.set_message_reasoning(&m.id, &s.id, "because");
    let forked = d.fork(&s.id).unwrap();
    assert_eq!(d.store.get_messages(&forked.id)[0].reasoning.as_deref(), Some("because"));
}

#[test]
fn fork_session_clones_messages_with_fresh_ids() {
    let mut d = Desk::new();
    let s = d.create_session(Some("fix bug"));
    d.add_message(&s.id, Role::User, "hello");
    d.add_message(&s.id, Role::Assistant, "hi");
    let forked = d.fork(&s.id).unwrap();
    assert_ne!(forked.id, s.id);

    let src_msgs = d.store.get_messages(&s.id);
    let fork_msgs = d.store.get_messages(&forked.id);
    assert_eq!(fork_msgs.len(), src_msgs.len());
    for (orig, copy) in src_msgs.iter().zip(&fork_msgs) {
        assert_ne!(copy.id, orig.id);
        assert_eq!(copy.session_id, forked.id);
        assert_eq!(copy.role, orig.role);
        assert_eq!(copy.content, orig.content);
    }
}

#[test]
fn fork_session_titled_gets_copy_suffix() {
    let mut d = Desk::new();
    let titled = d.create_session(None);
    d.set_title(&titled.id, "Fix bug");
    assert_eq!(d.fork(&titled.id).unwrap().title.as_deref(), Some("Fix bug (copy)"));
    let untitled = d.create_session(None);
    assert!(d.fork(&untitled.id).unwrap().title.is_none());
}

#[test]
fn fork_session_unknown_returns_none() {
    assert!(Desk::new().fork("nope").is_none());
}

#[test]
fn fork_session_leaves_source_untouched() {
    let mut d = Desk::new();
    let s = d.create_session(Some("keep me"));
    d.add_message(&s.id, Role::User, "original");
    let before = d.store.get_messages(&s.id);
    d.fork(&s.id).unwrap();
    let after = d.store.get_messages(&s.id);
    assert_eq!(after.len(), before.len());
    assert_eq!(after[0].id, before[0].id);
    assert_eq!(after[0].session_id, s.id);
    assert_eq!(d.store.list_sessions().len(), 2);
}

#[test]
fn fork_session_copies_stop_reason() {
    let mut d = Desk::new();
    let s = d.create_session(None);
    let m = d.add_message(&s.id, Role::Assistant, "[stopped]");
    d.store.set_message_stop_reason(&m.id, &s.id, StopReason::Cancelled);
    let forked = d.fork(&s.id).unwrap();
    assert_eq!(d.store.get_messages(&forked.id)[0].stop_reason, Some(StopReason::Cancelled));
}

// --- authors -----------------------------------------------------------------------------

#[test]
fn assistant_message_is_stamped_with_the_session_phenotype() {
    let mut d = Desk::new();
    let s = d.create_session(None);
    d.set_phenotype(&s.id, Some("codon"));
    d.add_message(&s.id, Role::User, "hi");
    let reserved = d.add_message(&s.id, Role::Assistant, "");
    assert_eq!(reserved.author_name.as_deref(), Some("codon"));

    let msgs = d.store.get_messages(&s.id);
    let user = msgs.iter().find(|m| m.role == Role::User).unwrap();
    let assistant = msgs.iter().find(|m| m.role == Role::Assistant).unwrap();
    assert_eq!(user.author_name, None);
    assert_eq!(assistant.author_name.as_deref(), Some("codon"));
}

#[test]
fn assistant_message_in_an_unbound_session_has_no_author() {
    let mut d = Desk::new();
    let s = d.create_session(None);
    let m = d.add_message(&s.id, Role::Assistant, "ok");
    assert_eq!(m.author_name, None);
    assert_eq!(d.store.get_messages(&s.id)[0].author_name, None);
}

#[test]
fn fork_preserves_the_persisted_author() {
    let mut d = Desk::new();
    let s = d.create_session(None);
    d.set_phenotype(&s.id, Some("codon"));
    d.add_message(&s.id, Role::Assistant, "authored by codon");
    let forked = d.fork(&s.id).unwrap();
    assert_eq!(d.store.get_messages(&forked.id)[0].author_name.as_deref(), Some("codon"));
}

// --- bindings ------------------------------------------------------------------------------

#[test]
fn new_session_has_no_phenotype_binding() {
    let mut d = Desk::new();
    let s = d.create_session(None);
    assert!(s.phenotype.is_none());
    assert!(d.store.session_phenotype(&s.id).is_none());
}

#[test]
fn set_and_clear_session_phenotype() {
    let mut d = Desk::new();
    let s = d.create_session(None);
    d.set_phenotype(&s.id, Some("codon"));
    assert_eq!(d.store.session_phenotype(&s.id).as_deref(), Some("codon"));
    d.set_phenotype(&s.id, None);
    assert!(d.store.session_phenotype(&s.id).is_none());
}

#[test]
fn set_session_phenotype_unknown_session_is_noop() {
    let mut d = Desk::new();
    d.set_phenotype("nope", Some("codon"));
    assert!(d.store.session_phenotype("nope").is_none());
}

#[test]
fn fork_session_copies_phenotype_binding() {
    let mut d = Desk::new();
    let s = d.create_session(None);
    d.set_phenotype(&s.id, Some("codon"));
    let forked = d.fork(&s.id).unwrap();
    assert_eq!(forked.phenotype.as_deref(), Some("codon"));
    d.set_phenotype(&forked.id, Some("default"));
    assert_eq!(d.store.session_phenotype(&s.id).as_deref(), Some("codon"));
}

#[test]
fn new_session_has_no_workspace() {
    let mut d = Desk::new();
    let s = d.create_session(None);
    assert!(s.workspace.is_none());
    assert!(d.store.session_workspace(&s.id).is_none());
}

#[test]
fn set_and_clear_session_workspace() {
    let mut d = Desk::new();
    let s = d.create_session(None);
    d.store.set_session_workspace(&s.id, Some("/work/proj".to_string()), 1);
    assert_eq!(d.store.session_workspace(&s.id).as_deref(), Some("/work/proj"));
    d.store.set_session_workspace(&s.id, None, 2);
    assert!(d.store.session_workspace(&s.id).is_none());
}

#[test]
fn set_session_workspace_unknown_session_is_noop() {
    let mut d = Desk::new();
    d.store.set_session_workspace("nope", Some("/work/proj".to_string()), 1);
    assert!(d.store.session_workspace("nope").is_none());
}

#[test]
fn fork_session_copies_workspace() {
    let mut d = Desk::new();
    let s = d.create_session(None);
    d.store.set_session_workspace(&s.id, Some("/work/proj".to_string()), 1);
    let forked = d.fork(&s.id).unwrap();
    assert_eq!(forked.workspace.as_deref(), Some("/work/proj"));
    d.store.set_session_workspace(&forked.id, Some("/work/other".to_string()), 2);
    assert_eq!(d.store.session_workspace(&s.id).as_deref(), Some("/work/proj"));
}

#[test]
fn new_session_has_no_mode_binding() {
    let mut d = Desk::new();
    let s = d.create_session(None);
    assert!(s.mode.is_none());
    assert!(d.store.session_mode(&s.id).is_none());
}

#[test]
fn set_and_clear_session_mode() {
    let mut d = Desk::new();
    let s = d.create_session(None);
    d.store.set_session_mode(&s.id, Some(Mode::Plan), 1);
    assert_eq!(d.store.session_mode(&s.id), Some(Mode::Plan));
    d.store.set_session_mode(&s.id, None, 2);
    assert!(d.store.session_mode(&s.id).is_none());
}

#[test]
fn set_session_mode_unknown_session_is_noop() {
    let mut d = Desk::new();
    d.store.set_session_mode("nope", Some(Mode::Act), 1);
    assert!(d.store.session_mode("nope").is_none());
}

#[test]
fn fork_session_copies_mode_binding() {
    let mut d = Desk::new();
    let s = d.create_session(None);
    d.store.set_session_mode(&s.id, Some(Mode::Act), 1);
    let forked = d.fork(&s.id).unwrap();
    assert_eq!(forked.mode, Some(Mode::Act));
    d.store.set_session_mode(&forked.id, Some(Mode::Auto), 2);
    assert_eq!(d.store.session_mode(&s.id), Some(Mode::Act));
}

#[test]
fn new_session_has_no_model_binding() {
    let mut d = Desk::new();
    let s = d.create_session(None);
    assert!(s.model.is_none());
    assert!(d.store.session_model(&s.id).is_none());
}

#[test]
fn set_and_clear_session_model() {
    let mut d = Desk::new();
    let s = d.create_session(None);
    let sel = model_sel("openai-main", "gpt-4o");
    d.store.set_session_model(&s.id, Some(sel.clone()), 1);
    assert_eq!(d.store.session_model(&s.id), Some(sel));
    d.store.set_session_model(&s.id, None, 2);
    assert!(d.store.session_model(&s.id).is_none());
}

#[test]
fn set_session_model_unknown_session_is_noop() {
    let mut d = Desk::new();
    d.store.set_session_model("nope", Some(model_sel("openai-main", "gpt-4o")), 1);
    assert!(d.store.session_model("nope").is_none());
}

#[test]
fn fork_session_copies_model_binding() {
    let mut d = Desk::new();
    let s = d.create_session(None);
    let sel = model_sel("openai-main", "gpt-4o");
    d.store.set_session_model(&s.id, Some(sel.clone()), 1);
    let forked = d.fork(&s.id).unwrap();
    assert_eq!(forked.model, Some(sel.clone()));
    d.store.set_session_model(&forked.id, Some(model_sel("other-main", "other-model")), 2);
    assert_eq!(d.store.session_model(&s.id), Some(sel));
}

fn servers(id: &str) -> Option<String> {
    Some(format!("[{{\"id\":\"{id}\",\"command\":\"codegraph\"}}]"))
}

#[test]
fn new_session_has_no_mcp_servers_binding() {
    let mut d = Desk::new();
    let s = d.create_session(None);
    assert!(s.mcp_servers.is_none());
    assert!(d.store.session_mcp_servers(&s.id).is_none());
}

#[test]
fn set_and_clear_session_mcp_servers() {
    let mut d = Desk::new();
    let s = d.create_session(None);
    d.store.set_session_mcp_servers(&s.id, servers("codegraph"), 1);
    assert_eq!(d.store.session_mcp_servers(&s.id), servers("codegraph"));
    d.store.set_session_mcp_servers(&s.id, None, 2);
    assert!(d.store.session_mcp_servers(&s.id).is_none());
}

#[test]
fn set_session_mcp_servers_unknown_session_is_noop() {
    let mut d = Desk::new();
    d.store.set_session_mcp_servers("nope", servers("codegraph"), 1);
    assert!(d.store.session_mcp_servers("nope").is_none());
}

#[test]
fn fork_session_copies_mcp_servers_binding() {
    let mut d = Desk::new();
    let s = d.create_session(None);
    d.store.set_session_mcp_servers(&s.id, servers("codegraph"), 1);
    let forked = d.fork(&s.id).unwrap();
    assert_eq!(forked.mcp_servers, servers("codegraph"));
    d.store.set_session_mcp_servers(&forked.id, servers("other"), 2);
    assert_eq!(d.store.session_mcp_servers(&s.id), servers("codegraph"));
}

// --- export ---------------------------------------------------------------------------------

#[test]
fn export_markdown_has_headings_and_folds_large_tool_output() {
    let mut d = Desk::new();
    let s = d.create_session(Some("debug"));
    d.add_message(&s.id, Role::User, "whats wrong");
    let assistant = d.add_message(&s.id, Role::Assistant, "let me check");
    d.store.attach_tool_calls(
        &assistant.id,
        &s.id,
        vec![call("read_file", "{\"path\":\"x\"}")],
    );
    let big = "x".repeat(TOOL_OUTPUT_FOLD_THRESHOLD + 100);
    d.add_tool_result(&s.id, "call_1", &big);

    let md = d.store.export_session(&s.id).unwrap();
    assert!(md.contains("- **Goal:** debug"));
    assert!(md.contains("## You"));
    assert!(md.contains("## Assistant"));
    assert!(md.contains("## Tool"));
    assert!(md.contains("**Tool call:** read_file("));
    assert!(md.contains("<details>"));
}

#[test]
fn export_markdown_skips_system_messages() {
    let mut d = Desk::new();
    let s = d.create_session(None);
    d.add_message(&s.id, Role::System, "you are a helpful agent");
    d.add_message(&s.id, Role::User, "hi");
    let md = d.store.export_session(&s.id).unwrap();
    assert!(!md.contains("you are a helpful agent"));
    assert!(md.contains("## You"));
}

#[test]
fn export_markdown_includes_reasoning() {
    let mut d = Desk::new();
    let s = d.create_session(None);
    d.add_message(&s.id, Role::User, "what is 17*23?");
    let a = d.add_message(&s.id, Role::Assistant, "391");
    d.store.set_message_reasoning(&a.id, &s.id, "17 * 23 = 391");
    let md = d.store.export_session(&s.id).unwrap();
    assert!(md.contains("<details><summary>Thought</summary>"));
    assert!(md.contains("17 * 23 = 391"));
    assert!(md.contains("391"));
}

#[test]
fn export_unknown_session_is_none() {
    assert!(Desk::new().store.export_session("nope").is_none());
}

#[test]
fn an_export_tells_when_the_session_began() {
    let mut d = Desk::new();
    let s = d.store.create_session("s".to_string(), None, 1_784_768_523_000);
    let md = export_markdown(&s, &Vec::new());
    assert!(md.contains("2026-07-23 01:02"), "{md}");
    d.set_title("s", "T");
    assert!(d.store.export_session("s").unwrap().starts_with("# T\n"));
}

// --- edits ------------------------------------------------------------------------------------

#[test]
fn edit_user_message_replaces_content_and_truncates_after() {
    let mut d = Desk::new();
    let s = d.create_session(None);
    let u1 = d.add_message(&s.id, Role::User, "first question");
    d.add_message(&s.id, Role::Assistant, "first answer");
    d.add_message(&s.id, Role::User, "second question");
    d.add_message(&s.id, Role::Assistant, "second answer");
    let edited = d.edit(&s.id, &u1.id, "first question (edited)", None).unwrap();
    assert_eq!(edited, u1.id, "returns the edited message's id");
    let msgs = d.store.get_messages(&s.id);
    assert_eq!(msgs.len(), 1, "old response and everything after is dropped");
    assert_eq!(msgs[0].id, u1.id);
    assert_eq!(msgs[0].content, "first question (edited)");
}

#[test]
fn edit_user_message_updates_and_clears_attachments() {
    let mut d = Desk::new();
    let s = d.create_session(None);
    let u = d.add_message(&s.id, Role::User, "look");
    d.edit(&s.id, &u.id, "look (with image)", Some(vec![image()])).unwrap();
    let msgs = d.store.get_messages(&s.id);
    assert_eq!(msgs[0].attachments.as_ref().map(Vec::len), Some(1));
    d.edit(&s.id, &u.id, "look (no image)", None).unwrap();
    assert_eq!(d.store.get_messages(&s.id)[0].attachments, None);
}

#[test]
fn edit_user_message_rejects_non_user_message() {
    let mut d = Desk::new();
    let s = d.create_session(None);
    d.add_message(&s.id, Role::User, "q");
    let a = d.add_message(&s.id, Role::Assistant, "a");
    let err = d.edit(&s.id, &a.id, "tampered", None).unwrap_err();
    assert_eq!(err, EditMessageError::NotUserMessage);
    assert_eq!(err.message(), "only user messages can be edited");
    assert_eq!(d.store.get_messages(&s.id).len(), 2);
    assert_eq!(d.store.get_messages(&s.id)[1].content, "a");
}

#[test]
fn edit_user_message_rejects_unknown_id() {
    let mut d = Desk::new();
    let s = d.create_session(None);
    d.add_message(&s.id, Role::User, "q");
    let err = d.edit(&s.id, "does-not-exist", "x", None).unwrap_err();
    assert_eq!(err, EditMessageError::UnknownMessage);
    assert_eq!(err.message(), "no such message in this session");
}

#[test]
fn edit_user_message_rejects_id_from_another_session() {
    let mut d = Desk::new();
    let a = d.create_session(None);
    let b = d.create_session(None);
    let u = d.add_message(&a.id, Role::User, "in a");
    let err = d.edit(&b.id, &u.id, "x", None).unwrap_err();
    assert_eq!(err, EditMessageError::UnknownMessage);
    assert_eq!(d.store.get_messages(&a.id)[0].content, "in a");
}

#[test]
fn edit_user_message_drops_orphaned_compaction_originals() {
    let mut d = Desk::new();
    let s = d.create_session(None);
    let u = d.add_message(&s.id, Role::User, "q");
    let a = d.add_message(&s.id, Role::Assistant, "a");
    d.store.put_compaction_original(&s.id, &a.id, "hash-key-1", "verbatim original");
    assert_eq!(
        d.store.compaction_original("hash-key-1").as_deref(),
        Some("verbatim original")
    );
    d.edit(&s.id, &u.id, "q edited", None).unwrap();
    assert_eq!(d.store.compaction_original("hash-key-1"), None);
}

#[test]
fn a_storage_failure_is_told_with_its_cause() {
    let err = EditMessageError::Storage("disk full".to_string());
    assert_eq!(err.message(), "storage error while editing message: disk full");
}

// --- search -------------------------------------------------------------------------------------

#[test]
fn search_handles_fts5_special_chars() {
    assert_eq!(search_query("test*").as_deref(), Some("\"test*\""));
    assert_eq!(search_query(" a  b ").as_deref(), Some("\"a\" \"b\""));
    assert_eq!(fts5_escape("say \"hi\""), "\"say\" \"\"\"hi\"\"\"");
    assert_eq!(search_query(""), None);
    assert_eq!(search_query("   "), None);
}
