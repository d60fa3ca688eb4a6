//! The indexing server's state and the decision it takes when asked to
//! handle a workspace.
use vstd::prelude::*;
use crate::db::DB;
use crate::text::{str_eq, to_owned_string};

verus! {

/// Where the indexing of a workspace stands.
#[derive(Debug, Clone, Copy, PartialEq, Eq, Structural)]
pub enum State {
    /// Indexing has started.
    Starting,
    /// Indexing has finished.
    Running,
    /// Nothing runs.
    Stopped,
    /// Something failed, though the server still runs.
    Failed,
}

impl Default for State {
    fn default() -> (r: Self)
        ensures
            r == State::Stopped,
    {
        State::Stopped
    }
}

/// What the server knows of the indexing of a workspace.
#[derive(Debug)]
pub struct DBMetadata {
    pub state: State,
    pub workspace_path: String,
    /// The index of the file being indexed, or the share done.
    pub curr_progress: i64,
    /// How many files are being indexed.
    pub total_count: i64,
}

impl Default for DBMetadata {
    fn default() -> (r: Self)
        ensures
            r.state == State::Stopped,
            r.workspace_path@.len() == 0,
            r.curr_progress == 0,
            r.total_count == 0,
    {
        DBMetadata { state: State::Stopped, workspace_path: String::new(), curr_progress: 0, total_count: 0 }
    }
}

/// `db` is a fresh database for the folder `folder`: no data, no mapping,
/// no names but the folder's.
pub open spec fn is_fresh_db(db: DB, folder: Seq<char>) -> bool {
    &&& db.folder_path@ == folder
    &&& db.index == 0
    &&& db.curr_items == 0
    &&& db.current_data_v2@ == Map::<usize, Vec<String>>::empty()
    &&& db.mapping_data.wf()
    &&& db.mapping_data.view_map() == Map::<Seq<char>, Seq<u32>>::empty()
    &&& db.mapping_file_name@.len() == 0
    &&& db.db_file_path@.len() == 0
    &&& db.mapping_file_path@.len() == 0
    &&& db.curr_file_path@.len() == 0
    &&& db.workspace_path@.len() == 0
    &&& db.indexing_file_name@.len() == 0
}

/// The holder of a workspace's database.
pub struct DBHandler {
    pub db: DB,
}

impl DBHandler {
    /// Starts over with a fresh database for `folder_path`.
    pub fn init(&mut self, folder_path: &str)
        ensures
            is_fresh_db(final(self).db, folder_path@),
    {
        let mut db = DB::default();
        db.folder_path = to_owned_string(folder_path);
        self.db = db;
    }

    /// What is known of the indexing: nothing yet.
    pub fn get_current_metadata(&mut self) -> (r: DBMetadata)
        ensures
            *final(self) == *old(self),
            r.state == State::Stopped,
            r.workspace_path@.len() == 0,
            r.curr_progress == 0,
            r.total_count == 0,
    {
        DBMetadata::default()
    }
}

/// What the server does for a workspace, given what is known of it.
#[derive(Debug, Clone, Copy, PartialEq, Eq, Structural)]
pub enum ServerAction {
    /// Indexing is under way elsewhere: report the progress and let it go on.
    Continue(i64),
    /// Start the database, then index the workspace.
    StartAndIndex,
    /// Retry after a failure.
    Retry,
    /// Start the database.
    Start,
    /// The metadata is about another workspace: nothing to do.
    Nothing,
}

/// The action for `metadata` when the workspace `workspace_path` is asked
/// for.
pub open spec fn server_action(state: State, progress: i64, same_workspace: bool) -> ServerAction {
    if !same_workspace {
        ServerAction::Nothing
    } else {
        match state {
            State::Running => ServerAction::Continue(progress),
            State::Starting => ServerAction::StartAndIndex,
            State::Failed => ServerAction::Retry,
            State::Stopped => ServerAction::Start,
        }
    }
}

/// The indexing server of one workspace.
pub struct Server {
    pub state: State,
    pub state_db_handler: DBHandler,
}

impl Server {
    /// Decides what to do for `workspace_path` by what `metadata` says.
    pub fn decide(metadata: &DBMetadata, workspace_path: &str) -> (r: ServerAction)
        ensures
            r == server_action(metadata.state, metadata.curr_progress, metadata.workspace_path@ == workspace_path@),
    {
        if !str_eq(metadata.workspace_path.as_str(), workspace_path) {
            return ServerAction::Nothing;
        }
        match metadata.state {
            State::Running => ServerAction::Continue(metadata.curr_progress),
            State::Starting => ServerAction::StartAndIndex,
            State::Failed => ServerAction::Retry,
            State::Stopped => ServerAction::Start,
        }
    }

    /// Prepares the server for `workspace_path`: a fresh database for it and
    /// the metadata known of it, with the action that metadata calls for.
    pub fn handle_server(&mut self, workspace_path: &str) -> (r: (DBMetadata, ServerAction))
        ensures
            is_fresh_db(final(self).state_db_handler.db, workspace_path@),
            final(self).state == old(self).state,
            r.0.state == State::Stopped,
            r.0.workspace_path@.len() == 0,
            r.1 == server_action(State::Stopped, 0, workspace_path@.len() == 0),
    {
        self.state_db_handler.init(workspace_path);
        let metadata = self.state_db_handler.get_current_metadata();
        let action = Server::decide(&metadata, workspace_path);
        proof {
            if workspace_path@.len() == 0 {
                assert(metadata.workspace_path@ =~= workspace_path@);
            }
        }
        (metadata, action)
    }
}

} // verus!
