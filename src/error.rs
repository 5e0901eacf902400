//! Errors of the control plane, their kinds and the HTTP status of each.
use vstd::prelude::*;

verus! {

/// The coarse kind of every error that an operation can report.
#[derive(Debug, Clone, Copy, PartialEq, Eq, Structural)]
pub enum ErrorKind {
    InvalidInput,
    NotFound,
    Conflict,
    Locked,
    Unavailable,
    Internal,
}

/// Every error that the control plane reports, with the detail that caused it.
#[derive(Debug, Clone, PartialEq, Eq)]
pub enum Error {
    /// A required query parameter was not given.
    MissingInput { input: String },
    /// A query parameter was given but empty.
    EmptyInput { input: String },
    /// A settings write named a field the schema does not know.
    NewKey { key: String },
    /// A key that was asked for holds no data.
    MissingData { key: String },
    /// Keys under a prefix could not be listed.
    ListKeys { prefix: String },
    UpdateDoesNotExist,
    NoStagedImage,
    /// The update status file does not exist yet.
    UninitializedUpdateStatus,
    /// A commit was asked of a transaction with nothing pending.
    CommitWithNoPending,
    /// The update lock could not be shared.
    UpdateShareLock,
    UpdateLockHeld,
    /// The update orchestrator refused the command in its current state.
    DisallowCommand,
    /// The datastore lock could not be taken.
    DataStoreLock,
    ResponseSerialization,
    BindSocket { path: String },
    ServerStart,
    /// A key handed to the change pipeline has no affected-services metadata.
    ListedKeyNotPresent { key: String },
    /// A key would be created where creation was not allowed.
    NewKeyRejected { key: String },
    DataStore,
    Deserialization,
    DataStoreSerialization,
    CommandSerialization,
    InvalidMetadata { key: String },
    ConfigApplierFork,
    ConfigApplierStart,
    ConfigApplierStdin,
    ConfigApplierWait { exit_code: i32 },
    ConfigApplierWrite,
    SystemdNotify,
    SystemdNotifyStatus,
    SetPermissions { mode: u32 },
    SetGroup { gid: u32 },
    ReleaseData,
    Shutdown,
    Reboot { exit_code: i32, stderr: String },
    UpdateDispatcher,
    UpdateError,
    UpdateStatusParse,
    UpdateInfoParse,
    UpdateLockOpen,
}

/// The kind each error belongs to.
pub open spec fn kind_of(e: Error) -> ErrorKind {
    match e {
        Error::MissingInput { .. } | Error::EmptyInput { .. } | Error::NewKey { .. }
        | Error::NewKeyRejected { .. } => ErrorKind::InvalidInput,
        Error::MissingData { .. } | Error::ListKeys { .. } | Error::UpdateDoesNotExist
        | Error::NoStagedImage | Error::UninitializedUpdateStatus
        | Error::ListedKeyNotPresent { .. } => ErrorKind::NotFound,
        Error::CommitWithNoPending | Error::DisallowCommand => ErrorKind::Conflict,
        Error::UpdateShareLock | Error::UpdateLockHeld => ErrorKind::Locked,
        Error::DataStoreLock => ErrorKind::Unavailable,
        _ => ErrorKind::Internal,
    }
}

/// The HTTP status of an error: one per kind, except that a commit with
/// nothing pending is told apart from other conflicts.
pub open spec fn status_of(e: Error) -> u16 {
    match kind_of(e) {
        ErrorKind::InvalidInput => 400,
        ErrorKind::NotFound => 404,
        ErrorKind::Conflict => if e is CommitWithNoPending { 422 } else { 409 },
        ErrorKind::Locked => 423,
        ErrorKind::Unavailable => 500,
        ErrorKind::Internal => 500,
    }
}

/// `e` reports the request parameter `name` as missing or empty.
pub open spec fn input_named(e: Error, name: Seq<char>) -> bool {
    match e {
        Error::MissingInput { input } => input@ == name,
        Error::EmptyInput { input } => input@ == name,
        _ => false,
    }
}

impl Error {
    /// The kind of this error.
    pub fn kind(&self) -> (r: ErrorKind)
        ensures
            r == kind_of(*self),
    {
        match self {
            Error::MissingInput { .. } => ErrorKind::InvalidInput,
            Error::EmptyInput { .. } => ErrorKind::InvalidInput,
            Error::NewKey { .. } => ErrorKind::InvalidInput,
            Error::NewKeyRejected { .. } => ErrorKind::InvalidInput,
            Error::MissingData { .. } => ErrorKind::NotFound,
            Error::ListKeys { .. } => ErrorKind::NotFound,
            Error::UpdateDoesNotExist => ErrorKind::NotFound,
            Error::NoStagedImage => ErrorKind::NotFound,
            Error::UninitializedUpdateStatus => ErrorKind::NotFound,
            Error::ListedKeyNotPresent { .. } => ErrorKind::NotFound,
            Error::CommitWithNoPending => ErrorKind::Conflict,
            Error::DisallowCommand => ErrorKind::Conflict,
            Error::UpdateShareLock => ErrorKind::Locked,
            Error::UpdateLockHeld => ErrorKind::Locked,
            Error::DataStoreLock => ErrorKind::Unavailable,
            Error::ResponseSerialization => ErrorKind::Internal,
            Error::BindSocket { .. } => ErrorKind::Internal,
            Error::ServerStart => ErrorKind::Internal,
            Error::DataStore => ErrorKind::Internal,
            Error::Deserialization => ErrorKind::Internal,
            Error::DataStoreSerialization => ErrorKind::Internal,
            Error::CommandSerialization => ErrorKind::Internal,
            Error::InvalidMetadata { .. } => ErrorKind::Internal,
            Error::ConfigApplierFork => ErrorKind::Internal,
            Error::ConfigApplierStart => ErrorKind::Internal,
            Error::ConfigApplierStdin => ErrorKind::Internal,
            Error::ConfigApplierWait { .. } => ErrorKind::Internal,
            Error::ConfigApplierWrite => ErrorKind::Internal,
            Error::SystemdNotify => ErrorKind::Internal,
            Error::SystemdNotifyStatus => ErrorKind::Internal,
            Error::SetPermissions { .. } => ErrorKind::Internal,
            Error::SetGroup { .. } => ErrorKind::Internal,
            Error::ReleaseData => ErrorKind::Internal,
            Error::Shutdown => ErrorKind::Internal,
            Error::Reboot { .. } => ErrorKind::Internal,
            Error::UpdateDispatcher => ErrorKind::Internal,
            Error::UpdateError => ErrorKind::Internal,
            Error::UpdateStatusParse => ErrorKind::Internal,
            Error::UpdateInfoParse => ErrorKind::Internal,
            Error::UpdateLockOpen => ErrorKind::Internal,
        }
    }

    /// The HTTP status code with which the error is answered.
    pub fn status_code(&self) -> (r: u16)
        ensures
            r == status_of(*self),
    {
        match self.kind() {
            ErrorKind::InvalidInput => 400,
            ErrorKind::NotFound => 404,
            ErrorKind::Conflict => match self {
                Error::CommitWithNoPending => 422,
                _ => 409,
            },
            ErrorKind::Locked => 423,
            ErrorKind::Unavailable => 500,
            ErrorKind::Internal => 500,
        }
    }
}

} // verus!
