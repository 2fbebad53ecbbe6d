//! The satellite entities of the catalog and the parameter records of its
//! public operations.
use vstd::prelude::*;

verus! {

/// A tag: a unique, case-sensitive name where `/` denotes hierarchy, with
/// its informational parent, a cached note count and a pinned flag.
#[derive(Debug)]
pub struct Tag {
    pub id: u64,
    pub name: String,
    pub parent_name: Option<String>,
    pub note_count: u64,
    pub is_pinned: bool,
}

#[derive(Debug)]
pub struct Webhook {
    pub id: String,
    pub url: String,
    pub event_types: Vec<String>,
    pub secret: String,
    pub is_active: bool,
    pub created_at: String,
    pub last_triggered_at: Option<String>,
    pub failure_count: i64,
}

#[derive(Debug)]
pub struct Template {
    pub id: String,
    pub name: String,
    pub description: String,
    pub content: String,
    pub tags: Vec<String>,
    pub initial_state: String,
    pub created_at: String,
    pub updated_at: String,
}

/// An append-only audit record.
#[derive(Debug)]
pub struct ActivityEvent {
    pub id: u64,
    pub actor: String,
    pub event_type: String,
    pub note_id: Option<String>,
    pub timestamp: String,
    pub summary: String,
    pub data: String,
    pub agent_id: Option<String>,
}

#[derive(Debug)]
pub struct Agent {
    pub id: String,
    pub name: String,
    pub description: String,
    pub capabilities: Vec<String>,
    pub is_active: bool,
    pub created_at: String,
    pub updated_at: String,
}

#[derive(Debug)]
pub struct Task {
    pub id: String,
    pub title: String,
    pub description: String,
    pub status: String,
    pub priority: String,
    pub due_date: Option<String>,
    pub assigned_agent_id: Option<String>,
    pub linked_note_id: Option<String>,
    pub workspace_id: Option<String>,
    pub created_at: String,
    pub updated_at: String,
}

#[derive(Debug)]
pub struct WebhookLog {
    pub id: u64,
    pub webhook_id: String,
    pub event_type: String,
    pub payload: String,
    pub status_code: Option<i32>,
    pub response_body: Option<String>,
    pub attempt: i32,
    pub success: bool,
    pub error_message: Option<String>,
    pub timestamp: String,
}

#[derive(Debug)]
pub struct AgentWorkspace {
    pub agent_id: String,
    pub workspace_id: String,
    pub role: String,
    pub created_at: String,
}

#[derive(Debug)]
pub struct Workspace {
    pub id: String,
    pub name: String,
    pub description: String,
    pub agent_id: Option<String>,
    pub created_at: String,
    pub updated_at: String,
}

/// A node of the knowledge graph: a note with its link degree and tags.
#[derive(Debug)]
pub struct GraphNode {
    pub id: String,
    pub title: String,
    pub link_count: u64,
    pub tags: Vec<String>,
}

/// A directed wiki-link edge between two notes.
#[derive(Debug)]
pub struct GraphEdge {
    pub source: String,
    pub target: String,
    pub link_type: String,
}

#[derive(Debug)]
pub struct KnowledgeGraph {
    pub nodes: Vec<GraphNode>,
    pub edges: Vec<GraphEdge>,
}

#[derive(Debug)]
pub struct CreateNoteParams {
    pub title: Option<String>,
    pub content: Option<String>,
    pub workspace_id: Option<String>,
}

#[derive(Debug)]
pub struct UpdateNoteParams {
    pub id: String,
    pub title: Option<String>,
    pub content: Option<String>,
    pub expected_version: Option<i32>,
}

#[derive(Debug)]
pub struct ListNotesParams {
    pub tag: Option<String>,
    pub tags: Option<Vec<String>>,
    pub sort_by: Option<String>,
    pub sort_order: Option<String>,
    pub limit: Option<u64>,
    pub offset: Option<u64>,
    pub trashed: Option<bool>,
    pub workspace_id: Option<String>,
}

#[derive(Debug)]
pub struct SearchNotesParams {
    pub query: String,
    pub limit: Option<u64>,
}

/// The outcome of a bulk markdown import.
#[derive(Debug, Clone, Copy, PartialEq, Eq, Structural)]
pub struct ImportResult {
    pub imported: u32,
    pub skipped: u32,
}

#[derive(Debug)]
pub struct CreateFromTemplateParams {
    pub template_id: String,
    pub title: Option<String>,
}

} // verus!
