//! The errors of the library, their stable codes, and the mathematical values
//! that contracts compare them by.
use vstd::prelude::*;

verus! {

/// What a tool call can fail with. A correlation id, where there is one, ties the
/// answer to a log line.
#[derive(Debug)]
pub enum SubstrateError {
    /// A request field holds a value that is not accepted.
    InvalidArgument { offending_field: String, reason: String, correlation_id: Option<u128> },
    /// The path asks for a parent directory.
    PathTraversalBlocked { path: String, correlation_id: Option<u128> },
    /// The path leaves every allowed root.
    PathOutsideAllowlist { path: String, correlation_id: Option<u128> },
    /// A symbolic link leads out of the allowed roots.
    SymlinkEscape { path: String, correlation_id: Option<u128> },
    /// A chain of symbolic links does not end.
    SymlinkLoop { path: String, correlation_id: Option<u128> },
    /// The resource does not exist.
    NotFound { resource: String, correlation_id: Option<u128> },
    /// The operating system refuses access.
    PermissionDenied { path: String, correlation_id: Option<u128> },
    /// Any other input or output failure.
    IoError { path: String, correlation_id: Option<u128> },
    /// Bytes are not in the encoding that was asked for.
    EncodingError { detail: String, correlation_id: Option<u128> },
    /// The answer would be larger than what is returned inline.
    ResourceLimit { detail: String, correlation_id: Option<u128> },
    /// A concurrency quota is used up.
    QuotaExceeded { detail: String, correlation_id: Option<u128> },
    /// No job has this id.
    JobNotFound { job_id: String, correlation_id: Option<u128> },
    /// The caller asked to wait longer than is allowed.
    ResultWaitExceeded { requested_ms: u64, cap_ms: u64, correlation_id: Option<u128> },
    /// The wait ended before the result was there.
    Timeout { elapsed_ms: u64, correlation_id: Option<u128> },
    /// The operation was cancelled.
    Cancelled { correlation_id: Option<u128> },
    /// A condition that the caller cannot mend.
    InternalError { reason: String, correlation_id: Option<u128> },
}

/// What contracts say of a [`SubstrateError`]: its variant, its fields, and whether
/// it carries a correlation id. Which id it is, is left to chance.
#[verifier::ext_equal]
pub enum ErrorView {
    InvalidArgument { offending_field: Seq<char>, reason: Seq<char>, tagged: bool },
    PathTraversalBlocked { path: Seq<char>, tagged: bool },
    PathOutsideAllowlist { path: Seq<char>, tagged: bool },
    SymlinkEscape { path: Seq<char>, tagged: bool },
    SymlinkLoop { path: Seq<char>, tagged: bool },
    NotFound { resource: Seq<char>, tagged: bool },
    PermissionDenied { path: Seq<char>, tagged: bool },
    IoError { path: Seq<char>, tagged: bool },
    EncodingError { detail: Seq<char>, tagged: bool },
    ResourceLimit { detail: Seq<char>, tagged: bool },
    QuotaExceeded { detail: Seq<char>, tagged: bool },
    JobNotFound { job_id: Seq<char>, tagged: bool },
    ResultWaitExceeded { requested_ms: u64, cap_ms: u64, tagged: bool },
    Timeout { elapsed_ms: u64, tagged: bool },
    Cancelled { tagged: bool },
    InternalError { reason: Seq<char>, tagged: bool },
}

impl View for SubstrateError {
    type V = ErrorView;

    open spec fn view(&self) -> ErrorView {
        match self {
            SubstrateError::InvalidArgument { offending_field, reason, correlation_id } => ErrorView::InvalidArgument { offending_field: offending_field@, reason: reason@, tagged: correlation_id is Some },
            SubstrateError::PathTraversalBlocked { path, correlation_id } => ErrorView::PathTraversalBlocked { path: path@, tagged: correlation_id is Some },
            SubstrateError::PathOutsideAllowlist { path, correlation_id } => ErrorView::PathOutsideAllowlist { path: path@, tagged: correlation_id is Some },
            SubstrateError::SymlinkEscape { path, correlation_id } => ErrorView::SymlinkEscape { path: path@, tagged: correlation_id is Some },
            SubstrateError::SymlinkLoop { path, correlation_id } => ErrorView::SymlinkLoop { path: path@, tagged: correlation_id is Some },
            SubstrateError::NotFound { resource, correlation_id } => ErrorView::NotFound { resource: resource@, tagged: correlation_id is Some },
            SubstrateError::PermissionDenied { path, correlation_id } => ErrorView::PermissionDenied { path: path@, tagged: correlation_id is Some },
            SubstrateError::IoError { path, correlation_id } => ErrorView::IoError { path: path@, tagged: correlation_id is Some },
            SubstrateError::EncodingError { detail, correlation_id } => ErrorView::EncodingError { detail: detail@, tagged: correlation_id is Some },
            SubstrateError::ResourceLimit { detail, correlation_id } => ErrorView::ResourceLimit { detail: detail@, tagged: correlation_id is Some },
            SubstrateError::QuotaExceeded { detail, correlation_id } => ErrorView::QuotaExceeded { detail: detail@, tagged: correlation_id is Some },
            SubstrateError::JobNotFound { job_id, correlation_id } => ErrorView::JobNotFound { job_id: job_id@, tagged: correlation_id is Some },
            SubstrateError::ResultWaitExceeded { requested_ms, cap_ms, correlation_id } => ErrorView::ResultWaitExceeded { requested_ms: *requested_ms, cap_ms: *cap_ms, tagged: correlation_id is Some },
            SubstrateError::Timeout { elapsed_ms, correlation_id } => ErrorView::Timeout { elapsed_ms: *elapsed_ms, tagged: correlation_id is Some },
            SubstrateError::Cancelled { correlation_id } => ErrorView::Cancelled { tagged: correlation_id is Some },
            SubstrateError::InternalError { reason, correlation_id } => ErrorView::InternalError { reason: reason@, tagged: correlation_id is Some },
        }
    }
}

/// What is said of an error is what it holds.
pub proof fn errors_are_seen_as_made(e: SubstrateError)
    ensures
        match e {
            SubstrateError::InvalidArgument { offending_field, reason, correlation_id } => e@ == (ErrorView::InvalidArgument { offending_field: offending_field@, reason: reason@, tagged: correlation_id is Some }),
            SubstrateError::PathTraversalBlocked { path, correlation_id } => e@ == (ErrorView::PathTraversalBlocked { path: path@, tagged: correlation_id is Some }),
            SubstrateError::PathOutsideAllowlist { path, correlation_id } => e@ == (ErrorView::PathOutsideAllowlist { path: path@, tagged: correlation_id is Some }),
            SubstrateError::SymlinkEscape { path, correlation_id } => e@ == (ErrorView::SymlinkEscape { path: path@, tagged: correlation_id is Some }),
            SubstrateError::SymlinkLoop { path, correlation_id } => e@ == (ErrorView::SymlinkLoop { path: path@, tagged: correlation_id is Some }),
            SubstrateError::NotFound { resource, correlation_id } => e@ == (ErrorView::NotFound { resource: resource@, tagged: correlation_id is Some }),
            SubstrateError::PermissionDenied { path, correlation_id } => e@ == (ErrorView::PermissionDenied { path: path@, tagged: correlation_id is Some }),
            SubstrateError::IoError { path, correlation_id } => e@ == (ErrorView::IoError { path: path@, tagged: correlation_id is Some }),
            SubstrateError::EncodingError { detail, correlation_id } => e@ == (ErrorView::EncodingError { detail: detail@, tagged: correlation_id is Some }),
            SubstrateError::ResourceLimit { detail, correlation_id } => e@ == (ErrorView::ResourceLimit { detail: detail@, tagged: correlation_id is Some }),
            SubstrateError::QuotaExceeded { detail, correlation_id } => e@ == (ErrorView::QuotaExceeded { detail: detail@, tagged: correlation_id is Some }),
            SubstrateError::JobNotFound { job_id, correlation_id } => e@ == (ErrorView::JobNotFound { job_id: job_id@, tagged: correlation_id is Some }),
            SubstrateError::ResultWaitExceeded { requested_ms, cap_ms, correlation_id } => e@ == (ErrorView::ResultWaitExceeded { requested_ms: requested_ms, cap_ms: cap_ms, tagged: correlation_id is Some }),
            SubstrateError::Timeout { elapsed_ms, correlation_id } => e@ == (ErrorView::Timeout { elapsed_ms: elapsed_ms, tagged: correlation_id is Some }),
            SubstrateError::Cancelled { correlation_id } => e@ == (ErrorView::Cancelled { tagged: correlation_id is Some }),
            SubstrateError::InternalError { reason, correlation_id } => e@ == (ErrorView::InternalError { reason: reason@, tagged: correlation_id is Some }),
        },
{
}

impl ErrorView {
    /// The stable code of an error.
    pub open spec fn code(self) -> Seq<char> {
        match self {
            ErrorView::InvalidArgument { .. } => "SUBSTRATE_INVALID_ARGUMENT"@,
            ErrorView::PathTraversalBlocked { .. } => "SUBSTRATE_PATH_TRAVERSAL_BLOCKED"@,
            ErrorView::PathOutsideAllowlist { .. } => "SUBSTRATE_PATH_OUTSIDE_ALLOWLIST"@,
            ErrorView::SymlinkEscape { .. } => "SUBSTRATE_SYMLINK_ESCAPE"@,
            ErrorView::SymlinkLoop { .. } => "SUBSTRATE_SYMLINK_LOOP"@,
            ErrorView::NotFound { .. } => "SUBSTRATE_NOT_FOUND"@,
            ErrorView::PermissionDenied { .. } => "SUBSTRATE_PERMISSION_DENIED"@,
            ErrorView::IoError { .. } => "SUBSTRATE_IO_ERROR"@,
            ErrorView::EncodingError { .. } => "SUBSTRATE_ENCODING_ERROR"@,
            ErrorView::ResourceLimit { .. } => "SUBSTRATE_PAYLOAD_TOO_LARGE"@,
            ErrorView::QuotaExceeded { .. } => "SUBSTRATE_QUOTA_EXCEEDED"@,
            ErrorView::JobNotFound { .. } => "SUBSTRATE_JOB_NOT_FOUND"@,
            ErrorView::ResultWaitExceeded { .. } => "SUBSTRATE_RESULT_WAIT_EXCEEDED"@,
            ErrorView::Timeout { .. } => "SUBSTRATE_TIMEOUT"@,
            ErrorView::Cancelled { .. } => "SUBSTRATE_CANCELLED"@,
            ErrorView::InternalError { .. } => "SUBSTRATE_INTERNAL_ERROR"@,
        }
    }
}

impl SubstrateError {
    /// The stable code that clients match on.
    pub fn code(&self) -> (r: &'static str)
        ensures
            r@ == self@.code(),
            match self {
                SubstrateError::InvalidArgument { .. } => r@ == "SUBSTRATE_INVALID_ARGUMENT"@,
                SubstrateError::PathTraversalBlocked { .. } => r@ == "SUBSTRATE_PATH_TRAVERSAL_BLOCKED"@,
                SubstrateError::PathOutsideAllowlist { .. } => r@ == "SUBSTRATE_PATH_OUTSIDE_ALLOWLIST"@,
                SubstrateError::SymlinkEscape { .. } => r@ == "SUBSTRATE_SYMLINK_ESCAPE"@,
                SubstrateError::SymlinkLoop { .. } => r@ == "SUBSTRATE_SYMLINK_LOOP"@,
                SubstrateError::NotFound { .. } => r@ == "SUBSTRATE_NOT_FOUND"@,
                SubstrateError::PermissionDenied { .. } => r@ == "SUBSTRATE_PERMISSION_DENIED"@,
                SubstrateError::IoError { .. } => r@ == "SUBSTRATE_IO_ERROR"@,
                SubstrateError::EncodingError { .. } => r@ == "SUBSTRATE_ENCODING_ERROR"@,
                SubstrateError::ResourceLimit { .. } => r@ == "SUBSTRATE_PAYLOAD_TOO_LARGE"@,
                SubstrateError::QuotaExceeded { .. } => r@ == "SUBSTRATE_QUOTA_EXCEEDED"@,
                SubstrateError::JobNotFound { .. } => r@ == "SUBSTRATE_JOB_NOT_FOUND"@,
                SubstrateError::ResultWaitExceeded { .. } => r@ == "SUBSTRATE_RESULT_WAIT_EXCEEDED"@,
                SubstrateError::Timeout { .. } => r@ == "SUBSTRATE_TIMEOUT"@,
                SubstrateError::Cancelled { .. } => r@ == "SUBSTRATE_CANCELLED"@,
                SubstrateError::InternalError { .. } => r@ == "SUBSTRATE_INTERNAL_ERROR"@,
            },
    {
        match self {
            SubstrateError::InvalidArgument { .. } => "SUBSTRATE_INVALID_ARGUMENT",
            SubstrateError::PathTraversalBlocked { .. } => "SUBSTRATE_PATH_TRAVERSAL_BLOCKED",
            SubstrateError::PathOutsideAllowlist { .. } => "SUBSTRATE_PATH_OUTSIDE_ALLOWLIST",
            SubstrateError::SymlinkEscape { .. } => "SUBSTRATE_SYMLINK_ESCAPE",
            SubstrateError::SymlinkLoop { .. } => "SUBSTRATE_SYMLINK_LOOP",
            SubstrateError::NotFound { .. } => "SUBSTRATE_NOT_FOUND",
            SubstrateError::PermissionDenied { .. } => "SUBSTRATE_PERMISSION_DENIED",
            SubstrateError::IoError { .. } => "SUBSTRATE_IO_ERROR",
            SubstrateError::EncodingError { .. } => "SUBSTRATE_ENCODING_ERROR",
            SubstrateError::ResourceLimit { .. } => "SUBSTRATE_PAYLOAD_TOO_LARGE",
            SubstrateError::QuotaExceeded { .. } => "SUBSTRATE_QUOTA_EXCEEDED",
            SubstrateError::JobNotFound { .. } => "SUBSTRATE_JOB_NOT_FOUND",
            SubstrateError::ResultWaitExceeded { .. } => "SUBSTRATE_RESULT_WAIT_EXCEEDED",
            SubstrateError::Timeout { .. } => "SUBSTRATE_TIMEOUT",
            SubstrateError::Cancelled { .. } => "SUBSTRATE_CANCELLED",
            SubstrateError::InternalError { .. } => "SUBSTRATE_INTERNAL_ERROR",
        }
    }
}

/// What a launch operation can fail with.
#[derive(Debug)]
pub enum LaunchError {
    /// The launch profile, or an argument that stands for it, is not usable.
    InvalidProfile { msg: String },
    /// The dependency edges of a profile form a cycle.
    CycleDetected,
    /// A service cannot start because a required dependency failed.
    DependencyFailed { service: String, dependency: String },
    /// A process could not be started or watched.
    SpawnFailed { reason: String },
    /// The directory that holds the profile cannot be resolved or trusted.
    ConfigUntrustedDir { path: String },
    /// The profile has not been blessed.
    ProfileNotTrusted { path: String },
    /// The trust store can be read or written by others, or cannot be accessed.
    TrustStoreInsecure { path: String },
    /// The supervisor registry can be read or written by others, or cannot be accessed.
    RegistryInsecure { path: String },
    /// No stack with this id can be reached.
    SupervisorUnreachable { stack_id: String },
    /// The stack has not been taken down.
    StackNotTerminal { stack_id: String, state: String },
    /// A stack without a session outlived its time to live.
    StackTtlExpired { stack_id: String },
    /// A child without a supervisor was kept.
    OrphanAdopted { name: String },
    /// A child without a supervisor was removed.
    OrphanReaped { name: String },
    /// The recorded process id belongs to another process now.
    ChildPidRecycled { name: String, pid: i32 },
    /// A control frame is longer than one atomic write.
    FrameTooLarge { size: usize },
}

/// What contracts say of a [`LaunchError`].
#[verifier::ext_equal]
pub enum LaunchErrorView {
    InvalidProfile { msg: Seq<char> },
    CycleDetected,
    DependencyFailed { service: Seq<char>, dependency: Seq<char> },
    SpawnFailed { reason: Seq<char> },
    ConfigUntrustedDir { path: Seq<char> },
    ProfileNotTrusted { path: Seq<char> },
    TrustStoreInsecure { path: Seq<char> },
    RegistryInsecure { path: Seq<char> },
    SupervisorUnreachable { stack_id: Seq<char> },
    StackNotTerminal { stack_id: Seq<char>, state: Seq<char> },
    StackTtlExpired { stack_id: Seq<char> },
    OrphanAdopted { name: Seq<char> },
    OrphanReaped { name: Seq<char> },
    ChildPidRecycled { name: Seq<char>, pid: i32 },
    FrameTooLarge { size: usize },
}

impl View for LaunchError {
    type V = LaunchErrorView;

    open spec fn view(&self) -> LaunchErrorView {
        match self {
            LaunchError::InvalidProfile { msg } => LaunchErrorView::InvalidProfile { msg: msg@ },
            LaunchError::CycleDetected => LaunchErrorView::CycleDetected,
            LaunchError::DependencyFailed { service, dependency } => LaunchErrorView::DependencyFailed { service: service@, dependency: dependency@ },
            LaunchError::SpawnFailed { reason } => LaunchErrorView::SpawnFailed { reason: reason@ },
            LaunchError::ConfigUntrustedDir { path } => LaunchErrorView::ConfigUntrustedDir { path: path@ },
            LaunchError::ProfileNotTrusted { path } => LaunchErrorView::ProfileNotTrusted { path: path@ },
            LaunchError::TrustStoreInsecure { path } => LaunchErrorView::TrustStoreInsecure { path: path@ },
            LaunchError::RegistryInsecure { path } => LaunchErrorView::RegistryInsecure { path: path@ },
            LaunchError::SupervisorUnreachable { stack_id } => LaunchErrorView::SupervisorUnreachable { stack_id: stack_id@ },
            LaunchError::StackNotTerminal { stack_id, state } => LaunchErrorView::StackNotTerminal { stack_id: stack_id@, state: state@ },
            LaunchError::StackTtlExpired { stack_id } => LaunchErrorView::StackTtlExpired { stack_id: stack_id@ },
            LaunchError::OrphanAdopted { name } => LaunchErrorView::OrphanAdopted { name: name@ },
            LaunchError::OrphanReaped { name } => LaunchErrorView::OrphanReaped { name: name@ },
            LaunchError::ChildPidRecycled { name, pid } => LaunchErrorView::ChildPidRecycled { name: name@, pid: *pid },
            LaunchError::FrameTooLarge { size } => LaunchErrorView::FrameTooLarge { size: *size },
        }
    }
}

/// What is said of an error is what it holds.
pub proof fn launch_errors_are_seen_as_made(e: LaunchError)
    ensures
        match e {
            LaunchError::InvalidProfile { msg } => e@ == (LaunchErrorView::InvalidProfile { msg: msg@ }),
            LaunchError::CycleDetected => e@ == (LaunchErrorView::CycleDetected),
            LaunchError::DependencyFailed { service, dependency } => e@ == (LaunchErrorView::DependencyFailed { service: service@, dependency: dependency@ }),
            LaunchError::SpawnFailed { reason } => e@ == (LaunchErrorView::SpawnFailed { reason: reason@ }),
            LaunchError::ConfigUntrustedDir { path } => e@ == (LaunchErrorView::ConfigUntrustedDir { path: path@ }),
            LaunchError::ProfileNotTrusted { path } => e@ == (LaunchErrorView::ProfileNotTrusted { path: path@ }),
            LaunchError::TrustStoreInsecure { path } => e@ == (LaunchErrorView::TrustStoreInsecure { path: path@ }),
            LaunchError::RegistryInsecure { path } => e@ == (LaunchErrorView::RegistryInsecure { path: path@ }),
            LaunchError::SupervisorUnreachable { stack_id } => e@ == (LaunchErrorView::SupervisorUnreachable { stack_id: stack_id@ }),
            LaunchError::StackNotTerminal { stack_id, state } => e@ == (LaunchErrorView::StackNotTerminal { stack_id: stack_id@, state: state@ }),
            LaunchError::StackTtlExpired { stack_id } => e@ == (LaunchErrorView::StackTtlExpired { stack_id: stack_id@ }),
            LaunchError::OrphanAdopted { name } => e@ == (LaunchErrorView::OrphanAdopted { name: name@ }),
            LaunchError::OrphanReaped { name } => e@ == (LaunchErrorView::OrphanReaped { name: name@ }),
            LaunchError::ChildPidRecycled { name, pid } => e@ == (LaunchErrorView::ChildPidRecycled { name: name@, pid: pid }),
            LaunchError::FrameTooLarge { size } => e@ == (LaunchErrorView::FrameTooLarge { size: size }),
        },
{
}

impl LaunchErrorView {
    /// The stable code of an error.
    pub open spec fn code(self) -> Seq<char> {
        match self {
            LaunchErrorView::InvalidProfile { .. } => "SUBSTRATE_LAUNCH_INVALID_PROFILE"@,
            LaunchErrorView::CycleDetected => "SUBSTRATE_LAUNCH_CYCLE_DETECTED"@,
            LaunchErrorView::DependencyFailed { .. } => "SUBSTRATE_LAUNCH_DEPENDENCY_FAILED"@,
            LaunchErrorView::SpawnFailed { .. } => "SUBSTRATE_LAUNCH_SPAWN_FAILED"@,
            LaunchErrorView::ConfigUntrustedDir { .. } => "SUBSTRATE_LAUNCH_CONFIG_UNTRUSTED_DIR"@,
            LaunchErrorView::ProfileNotTrusted { .. } => "SUBSTRATE_LAUNCH_PROFILE_NOT_TRUSTED"@,
            LaunchErrorView::TrustStoreInsecure { .. } => "SUBSTRATE_LAUNCH_TRUST_STORE_INSECURE"@,
            LaunchErrorView::RegistryInsecure { .. } => "SUBSTRATE_LAUNCH_REGISTRY_INSECURE"@,
            LaunchErrorView::SupervisorUnreachable { .. } => "SUBSTRATE_LAUNCH_SUPERVISOR_UNREACHABLE"@,
            LaunchErrorView::StackNotTerminal { .. } => "SUBSTRATE_LAUNCH_STACK_NOT_TERMINAL"@,
            LaunchErrorView::StackTtlExpired { .. } => "SUBSTRATE_LAUNCH_STACK_TTL_EXPIRED"@,
            LaunchErrorView::OrphanAdopted { .. } => "SUBSTRATE_LAUNCH_ORPHAN_ADOPTED"@,
            LaunchErrorView::OrphanReaped { .. } => "SUBSTRATE_LAUNCH_ORPHAN_REAPED"@,
            LaunchErrorView::ChildPidRecycled { .. } => "SUBSTRATE_LAUNCH_CHILD_PID_RECYCLED"@,
            LaunchErrorView::FrameTooLarge { .. } => "SUBSTRATE_LAUNCH_FRAME_TOO_LARGE"@,
        }
    }
}

impl LaunchError {
    /// The stable code that clients match on.
    pub fn code(&self) -> (r: &'static str)
        ensures
            r@ == self@.code(),
            match self {
                LaunchError::InvalidProfile { .. } => r@ == "SUBSTRATE_LAUNCH_INVALID_PROFILE"@,
                LaunchError::CycleDetected => r@ == "SUBSTRATE_LAUNCH_CYCLE_DETECTED"@,
                LaunchError::DependencyFailed { .. } => r@ == "SUBSTRATE_LAUNCH_DEPENDENCY_FAILED"@,
                LaunchError::SpawnFailed { .. } => r@ == "SUBSTRATE_LAUNCH_SPAWN_FAILED"@,
                LaunchError::ConfigUntrustedDir { .. } => r@ == "SUBSTRATE_LAUNCH_CONFIG_UNTRUSTED_DIR"@,
                LaunchError::ProfileNotTrusted { .. } => r@ == "SUBSTRATE_LAUNCH_PROFILE_NOT_TRUSTED"@,
                LaunchError::TrustStoreInsecure { .. } => r@ == "SUBSTRATE_LAUNCH_TRUST_STORE_INSECURE"@,
                LaunchError::RegistryInsecure { .. } => r@ == "SUBSTRATE_LAUNCH_REGISTRY_INSECURE"@,
                LaunchError::SupervisorUnreachable { .. } => r@ == "SUBSTRATE_LAUNCH_SUPERVISOR_UNREACHABLE"@,
                LaunchError::StackNotTerminal { .. } => r@ == "SUBSTRATE_LAUNCH_STACK_NOT_TERMINAL"@,
                LaunchError::StackTtlExpired { .. } => r@ == "SUBSTRATE_LAUNCH_STACK_TTL_EXPIRED"@,
                LaunchError::OrphanAdopted { .. } => r@ == "SUBSTRATE_LAUNCH_ORPHAN_ADOPTED"@,
                LaunchError::OrphanReaped { .. } => r@ == "SUBSTRATE_LAUNCH_ORPHAN_REAPED"@,
                LaunchError::ChildPidRecycled { .. } => r@ == "SUBSTRATE_LAUNCH_CHILD_PID_RECYCLED"@,
                LaunchError::FrameTooLarge { .. } => r@ == "SUBSTRATE_LAUNCH_FRAME_TOO_LARGE"@,
            },
    {
        match self {
            LaunchError::InvalidProfile { .. } => "SUBSTRATE_LAUNCH_INVALID_PROFILE",
            LaunchError::CycleDetected => "SUBSTRATE_LAUNCH_CYCLE_DETECTED",
            LaunchError::DependencyFailed { .. } => "SUBSTRATE_LAUNCH_DEPENDENCY_FAILED",
            LaunchError::SpawnFailed { .. } => "SUBSTRATE_LAUNCH_SPAWN_FAILED",
            LaunchError::ConfigUntrustedDir { .. } => "SUBSTRATE_LAUNCH_CONFIG_UNTRUSTED_DIR",
            LaunchError::ProfileNotTrusted { .. } => "SUBSTRATE_LAUNCH_PROFILE_NOT_TRUSTED",
            LaunchError::TrustStoreInsecure { .. } => "SUBSTRATE_LAUNCH_TRUST_STORE_INSECURE",
            LaunchError::RegistryInsecure { .. } => "SUBSTRATE_LAUNCH_REGISTRY_INSECURE",
            LaunchError::SupervisorUnreachable { .. } => "SUBSTRATE_LAUNCH_SUPERVISOR_UNREACHABLE",
            LaunchError::StackNotTerminal { .. } => "SUBSTRATE_LAUNCH_STACK_NOT_TERMINAL",
            LaunchError::StackTtlExpired { .. } => "SUBSTRATE_LAUNCH_STACK_TTL_EXPIRED",
            LaunchError::OrphanAdopted { .. } => "SUBSTRATE_LAUNCH_ORPHAN_ADOPTED",
            LaunchError::OrphanReaped { .. } => "SUBSTRATE_LAUNCH_ORPHAN_REAPED",
            LaunchError::ChildPidRecycled { .. } => "SUBSTRATE_LAUNCH_CHILD_PID_RECYCLED",
            LaunchError::FrameTooLarge { .. } => "SUBSTRATE_LAUNCH_FRAME_TOO_LARGE",
        }
    }
}

impl SubstrateError {
    /// Copies the error.
    pub fn copied(&self) -> (r: SubstrateError)
        ensures
            r == *self,
    {
        match self {
            SubstrateError::InvalidArgument { offending_field, reason, correlation_id } => SubstrateError::InvalidArgument { offending_field: offending_field.clone(), reason: reason.clone(), correlation_id: *correlation_id },
            SubstrateError::PathTraversalBlocked { path, correlation_id } => SubstrateError::PathTraversalBlocked { path: path.clone(), correlation_id: *correlation_id },
            SubstrateError::PathOutsideAllowlist { path, correlation_id } => SubstrateError::PathOutsideAllowlist { path: path.clone(), correlation_id: *correlation_id },
            SubstrateError::SymlinkEscape { path, correlation_id } => SubstrateError::SymlinkEscape { path: path.clone(), correlation_id: *correlation_id },
            SubstrateError::SymlinkLoop { path, correlation_id } => SubstrateError::SymlinkLoop { path: path.clone(), correlation_id: *correlation_id },
            SubstrateError::NotFound { resource, correlation_id } => SubstrateError::NotFound { resource: resource.clone(), correlation_id: *correlation_id },
            SubstrateError::PermissionDenied { path, correlation_id } => SubstrateError::PermissionDenied { path: path.clone(), correlation_id: *correlation_id },
            SubstrateError::IoError { path, correlation_id } => SubstrateError::IoError { path: path.clone(), correlation_id: *correlation_id },
            SubstrateError::EncodingError { detail, correlation_id } => SubstrateError::EncodingError { detail: detail.clone(), correlation_id: *correlation_id },
            SubstrateError::ResourceLimit { detail, correlation_id } => SubstrateError::ResourceLimit { detail: detail.clone(), correlation_id: *correlation_id },
            SubstrateError::QuotaExceeded { detail, correlation_id } => SubstrateError::QuotaExceeded { detail: detail.clone(), correlation_id: *correlation_id },
            SubstrateError::JobNotFound { job_id, correlation_id } => SubstrateError::JobNotFound { job_id: job_id.clone(), correlation_id: *correlation_id },
            SubstrateError::ResultWaitExceeded { requested_ms, cap_ms, correlation_id } => SubstrateError::ResultWaitExceeded { requested_ms: *requested_ms, cap_ms: *cap_ms, correlation_id: *correlation_id },
            SubstrateError::Timeout { elapsed_ms, correlation_id } => SubstrateError::Timeout { elapsed_ms: *elapsed_ms, correlation_id: *correlation_id },
            SubstrateError::Cancelled { correlation_id } => SubstrateError::Cancelled { correlation_id: *correlation_id },
            SubstrateError::InternalError { reason, correlation_id } => SubstrateError::InternalError { reason: reason.clone(), correlation_id: *correlation_id },
        }
    }

    /// The correlation id of the error, where it carries one.
    pub open spec fn tag(self) -> Option<u128> {
        match self {
            SubstrateError::InvalidArgument { correlation_id, .. } => correlation_id,
            SubstrateError::PathTraversalBlocked { correlation_id, .. } => correlation_id,
            SubstrateError::PathOutsideAllowlist { correlation_id, .. } => correlation_id,
            SubstrateError::SymlinkEscape { correlation_id, .. } => correlation_id,
            SubstrateError::SymlinkLoop { correlation_id, .. } => correlation_id,
            SubstrateError::NotFound { correlation_id, .. } => correlation_id,
            SubstrateError::PermissionDenied { correlation_id, .. } => correlation_id,
            SubstrateError::IoError { correlation_id, .. } => correlation_id,
            SubstrateError::EncodingError { correlation_id, .. } => correlation_id,
            SubstrateError::ResourceLimit { correlation_id, .. } => correlation_id,
            SubstrateError::QuotaExceeded { correlation_id, .. } => correlation_id,
            SubstrateError::JobNotFound { correlation_id, .. } => correlation_id,
            SubstrateError::ResultWaitExceeded { correlation_id, .. } => correlation_id,
            SubstrateError::Timeout { correlation_id, .. } => correlation_id,
            SubstrateError::Cancelled { correlation_id, .. } => correlation_id,
            SubstrateError::InternalError { correlation_id, .. } => correlation_id,
        }
    }

    /// The correlation id of the error, where it carries one.
    pub fn correlation_id(&self) -> (r: Option<u128>)
        ensures
            r == self.tag(),
            match self {
                SubstrateError::InvalidArgument { correlation_id, .. } => r == correlation_id,
                SubstrateError::PathTraversalBlocked { correlation_id, .. } => r == correlation_id,
                SubstrateError::PathOutsideAllowlist { correlation_id, .. } => r == correlation_id,
                SubstrateError::SymlinkEscape { correlation_id, .. } => r == correlation_id,
                SubstrateError::SymlinkLoop { correlation_id, .. } => r == correlation_id,
                SubstrateError::NotFound { correlation_id, .. } => r == correlation_id,
                SubstrateError::PermissionDenied { correlation_id, .. } => r == correlation_id,
                SubstrateError::IoError { correlation_id, .. } => r == correlation_id,
                SubstrateError::EncodingError { correlation_id, .. } => r == correlation_id,
                SubstrateError::ResourceLimit { correlation_id, .. } => r == correlation_id,
                SubstrateError::QuotaExceeded { correlation_id, .. } => r == correlation_id,
                SubstrateError::JobNotFound { correlation_id, .. } => r == correlation_id,
                SubstrateError::ResultWaitExceeded { correlation_id, .. } => r == correlation_id,
                SubstrateError::Timeout { correlation_id, .. } => r == correlation_id,
                SubstrateError::Cancelled { correlation_id, .. } => r == correlation_id,
                SubstrateError::InternalError { correlation_id, .. } => r == correlation_id,
            },
    {
        match self {
            SubstrateError::InvalidArgument { correlation_id, .. } => *correlation_id,
            SubstrateError::PathTraversalBlocked { correlation_id, .. } => *correlation_id,
            SubstrateError::PathOutsideAllowlist { correlation_id, .. } => *correlation_id,
            SubstrateError::SymlinkEscape { correlation_id, .. } => *correlation_id,
            SubstrateError::SymlinkLoop { correlation_id, .. } => *correlation_id,
            SubstrateError::NotFound { correlation_id, .. } => *correlation_id,
            SubstrateError::PermissionDenied { correlation_id, .. } => *correlation_id,
            SubstrateError::IoError { correlation_id, .. } => *correlation_id,
            SubstrateError::EncodingError { correlation_id, .. } => *correlation_id,
            SubstrateError::ResourceLimit { correlation_id, .. } => *correlation_id,
            SubstrateError::QuotaExceeded { correlation_id, .. } => *correlation_id,
            SubstrateError::JobNotFound { correlation_id, .. } => *correlation_id,
            SubstrateError::ResultWaitExceeded { correlation_id, .. } => *correlation_id,
            SubstrateError::Timeout { correlation_id, .. } => *correlation_id,
            SubstrateError::Cancelled { correlation_id, .. } => *correlation_id,
            SubstrateError::InternalError { correlation_id, .. } => *correlation_id,
        }
    }
}

/// `uuid::Uuid::now_v7` as a number. The result rests on the clock and on chance,
/// so nothing is claimed of it.
#[verifier::external_body]
pub(crate) fn fresh_correlation_id() -> (id: u128) {
    uuid::Uuid::now_v7().as_u128()
}

/// The text of an invalid-argument error about `field`.
pub(crate) fn invalid_argument(field: &str, reason: String, tagged: bool) -> (e: SubstrateError)
    ensures
        e@ == (ErrorView::InvalidArgument { offending_field: field@, reason: reason@, tagged }),
{
    let correlation_id = if tagged {
        Some(fresh_correlation_id())
    } else {
        None
    };
    SubstrateError::InvalidArgument { offending_field: field.to_owned(), reason, correlation_id }
}

} // verus!
