//! Error types for store operations.
//!
//! Every failure is a value of [`WalDBError`]; there is no exceptional
//! control flow. [`WalDBError::message`] renders a human-readable account
//! of the failure, and [`ErrorBuilder`] assembles the tree-violation
//! errors piece by piece.

use vstd::prelude::*;
use vstd::string::StringExecFns;
use vstd::string::StrSliceExecFns;

verus! {

/// What went wrong during a store operation.
#[derive(Debug)]
pub enum WalDBError {
    /// An underlying I/O operation failed; the caller supplies the context.
    Io { context: String, message: String },
    /// A write would have put a child under a scalar parent.
    TreeStructureViolation { path: String, parent: String, reason: String },
    /// A write-ahead-log record failed its checksum or framing.
    WalCorruption { position: u64, expected: String, found: String },
    /// A segment image failed its magic, framing or checks.
    SegmentCorruption { path: String, offset: u64, reason: String },
    /// A level merge could not produce its output segment.
    CompactionFailed { level: usize, segment_count: usize, reason: String },
    /// The block cache exceeded its byte budget.
    CacheOverflow { current_size: usize, max_size: usize },
    /// A key was rejected before any state changed.
    InvalidPath { path: String, reason: String },
    /// A glob pattern was rejected.
    InvalidPattern { pattern: String, reason: String },
    /// A batch was abandoned with nothing applied.
    TransactionAborted { reason: String, operations_rolled_back: usize },
    /// A conflicting writer got there first.
    ConcurrentModification { key: String, expected_seq: u64, actual_seq: u64 },
    /// A size limit was hit.
    ResourceExhausted { resource: String, limit: String },
    /// An operation exceeded its deadline.
    Timeout { operation: String, duration_ms: u64 },
}

/// The decimal digit character for `d`.
pub open spec fn digit_char(d: nat) -> char
    recommends
        d < 10,
{
    if d == 0 {
        '0'
    } else if d == 1 {
        '1'
    } else if d == 2 {
        '2'
    } else if d == 3 {
        '3'
    } else if d == 4 {
        '4'
    } else if d == 5 {
        '5'
    } else if d == 6 {
        '6'
    } else if d == 7 {
        '7'
    } else if d == 8 {
        '8'
    } else {
        '9'
    }
}

/// The decimal rendering of `n`, most significant digit first.
pub open spec fn spec_dec_chars(n: nat) -> Seq<char>
    decreases n,
{
    if n < 10 {
        seq![digit_char(n)]
    } else {
        spec_dec_chars(n / 10).push(digit_char(n % 10))
    }
}

fn digit_str(d: u64) -> (r: &'static str)
    requires
        d < 10,
    ensures
        r@ == seq![digit_char(d as nat)],
{
    proof {
        reveal_strlit("0");
        reveal_strlit("1");
        reveal_strlit("2");
        reveal_strlit("3");
        reveal_strlit("4");
        reveal_strlit("5");
        reveal_strlit("6");
        reveal_strlit("7");
        reveal_strlit("8");
        reveal_strlit("9");
    }
    if d == 0 {
        "0"
    } else if d == 1 {
        "1"
    } else if d == 2 {
        "2"
    } else if d == 3 {
        "3"
    } else if d == 4 {
        "4"
    } else if d == 5 {
        "5"
    } else if d == 6 {
        "6"
    } else if d == 7 {
        "7"
    } else if d == 8 {
        "8"
    } else {
        "9"
    }
}

/// Append the decimal rendering of `n` to `s`.
pub fn append_u64(s: &mut String, n: u64)
    ensures
        final(s)@ == old(s)@ + spec_dec_chars(n as nat),
    decreases n,
{
    if n >= 10 {
        append_u64(s, n / 10);
        s.append(digit_str(n % 10));
        proof {
            assert(old(s)@ + spec_dec_chars((n / 10) as nat) + seq![
                digit_char((n % 10) as nat),
            ] =~= old(s)@ + spec_dec_chars(n as nat));
        }
    } else {
        s.append(digit_str(n));
        proof {
            assert(old(s)@ + seq![digit_char(n as nat)] =~= old(s)@ + spec_dec_chars(n as nat));
        }
    }
}

/// The message text of an error: the error's fields joined in a fixed
/// human-readable shape.
pub open spec fn spec_message(e: &WalDBError) -> Seq<char> {
    match e {
        WalDBError::Io { context, message } => "I/O error during "@ + context@ + ": "@ + message@,
        WalDBError::TreeStructureViolation { path, parent, reason } => "Cannot write '"@ + path@
            + "': parent '"@ + parent@ + "' is a scalar value. "@ + reason@,
        WalDBError::WalCorruption { position, expected, found } => "WAL corruption at position "@
            + spec_dec_chars(*position as nat) + ": expected "@ + expected@ + ", found "@
            + found@,
        WalDBError::SegmentCorruption { path, offset, reason } => "Segment '"@ + path@
            + "' corrupted at offset "@ + spec_dec_chars(*offset as nat) + ": "@ + reason@,
        WalDBError::CompactionFailed { level, segment_count, reason } => "Compaction failed for L"@
            + spec_dec_chars(*level as nat) + " ("@ + spec_dec_chars(*segment_count as nat)
            + " segments): "@ + reason@,
        WalDBError::CacheOverflow { current_size, max_size } => "Cache overflow: "@
            + spec_dec_chars(*current_size as nat) + " bytes exceeds limit of "@ + spec_dec_chars(
            *max_size as nat,
        ) + " bytes"@,
        WalDBError::InvalidPath { path, reason } => "Invalid path '"@ + path@ + "': "@ + reason@,
        WalDBError::InvalidPattern { pattern, reason } => "Invalid pattern '"@ + pattern@ + "': "@
            + reason@,
        WalDBError::TransactionAborted { reason, operations_rolled_back } => "Transaction aborted: "@
            + reason@ + " ("@ + spec_dec_chars(*operations_rolled_back as nat)
            + " operations rolled back)"@,
        WalDBError::ConcurrentModification { key, expected_seq, actual_seq } => "Concurrent modification of '"@
            + key@ + "': expected seq "@ + spec_dec_chars(*expected_seq as nat) + ", found seq "@
            + spec_dec_chars(*actual_seq as nat),
        WalDBError::ResourceExhausted { resource, limit } => "Resource exhausted: "@ + resource@
            + " (limit: "@ + limit@ + ")"@,
        WalDBError::Timeout { operation, duration_ms } => "Operation '"@ + operation@
            + "' timed out after "@ + spec_dec_chars(*duration_ms as nat) + "ms"@,
    }
}

impl WalDBError {
    /// Render the error as text.
    pub fn message(&self) -> (r: String)
        ensures
            r@ == spec_message(self),
    {
        let mut s = String::new();
        match self {
            WalDBError::Io { context, message } => {
                s.append("I/O error during ");
                s.append(context.as_str());
                s.append(": ");
                s.append(message.as_str());
            },
            WalDBError::TreeStructureViolation { path, parent, reason } => {
                s.append("Cannot write '");
                s.append(path.as_str());
                s.append("': parent '");
                s.append(parent.as_str());
                s.append("' is a scalar value. ");
                s.append(reason.as_str());
            },
            WalDBError::WalCorruption { position, expected, found } => {
                s.append("WAL corruption at position ");
                append_u64(&mut s, *position);
                s.append(": expected ");
                s.append(expected.as_str());
                s.append(", found ");
                s.append(found.as_str());
            },
            WalDBError::SegmentCorruption { path, offset, reason } => {
                s.append("Segment '");
                s.append(path.as_str());
                s.append("' corrupted at offset ");
                append_u64(&mut s, *offset);
                s.append(": ");
                s.append(reason.as_str());
            },
            WalDBError::CompactionFailed { level, segment_count, reason } => {
                s.append("Compaction failed for L");
                append_u64(&mut s, *level as u64);
                s.append(" (");
                append_u64(&mut s, *segment_count as u64);
                s.append(" segments): ");
                s.append(reason.as_str());
            },
            WalDBError::CacheOverflow { current_size, max_size } => {
                s.append("Cache overflow: ");
                append_u64(&mut s, *current_size as u64);
                s.append(" bytes exceeds limit of ");
                append_u64(&mut s, *max_size as u64);
                s.append(" bytes");
            },
            WalDBError::InvalidPath { path, reason } => {
                s.append("Invalid path '");
                s.append(path.as_str());
                s.append("': ");
                s.append(reason.as_str());
            },
            WalDBError::InvalidPattern { pattern, reason } => {
                s.append("Invalid pattern '");
                s.append(pattern.as_str());
                s.append("': ");
                s.append(reason.as_str());
            },
            WalDBError::TransactionAborted { reason, operations_rolled_back } => {
                s.append("Transaction aborted: ");
                s.append(reason.as_str());
                s.append(" (");
                append_u64(&mut s, *operations_rolled_back as u64);
                s.append(" operations rolled back)");
            },
            WalDBError::ConcurrentModification { key, expected_seq, actual_seq } => {
                s.append("Concurrent modification of '");
                s.append(key.as_str());
                s.append("': expected seq ");
                append_u64(&mut s, *expected_seq);
                s.append(", found seq ");
                append_u64(&mut s, *actual_seq);
            },
            WalDBError::ResourceExhausted { resource, limit } => {
                s.append("Resource exhausted: ");
                s.append(resource.as_str());
                s.append(" (limit: ");
                s.append(limit.as_str());
                s.append(")");
            },
            WalDBError::Timeout { operation, duration_ms } => {
                s.append("Operation '");
                s.append(operation.as_str());
                s.append("' timed out after ");
                append_u64(&mut s, *duration_ms);
                s.append("ms");
            },
        }
        s
    }
}

/// The text std's lossy UTF-8 decoding gives to a byte string; invalid
/// sequences become replacement characters.
pub uninterp spec fn utf8_lossy(b: Seq<u8>) -> Seq<char>;

/// Relies on String::from_utf8_lossy: the text depends on the bytes alone.
#[verifier::external_body]
pub fn bytes_to_text(b: &[u8]) -> (r: String)
    ensures
        r@ == utf8_lossy(b@),
{
    String::from_utf8_lossy(b).into_owned()
}

/// Attaches context to the error side of an I/O result.
pub trait IoContext<T>: Sized {
    /// Wrap an I/O failure with a description of what was being attempted.
    fn io_context(self, context: &str) -> Result<T, WalDBError>;
}

#[verifier::external_type_specification]
#[verifier::external_body]
pub struct ExIoError(std::io::Error);

/// Relies on std::io::Error's Display implementation to render the
/// underlying failure as text.
#[verifier::external_body]
fn io_error_text(e: &std::io::Error) -> (r: String)
    ensures
        vstd::string::to_string_from_display_ensures::<std::io::Error>(e, r),
{
    format!("{}", e)
}

impl<T> IoContext<T> for Result<T, std::io::Error> {
    fn io_context(self, context: &str) -> (r: Result<T, WalDBError>)
        ensures
            r is Ok <==> self is Ok,
            r matches Ok(v) ==> self matches Ok(sv) && v == sv,
            r matches Err(e) ==> e matches WalDBError::Io { context: c, .. } && c@ == context@,
    {
        match self {
            Ok(v) => Ok(v),
            Err(e) => {
                let msg = io_error_text(&e);
                Err(WalDBError::Io { context: String::from_str(context), message: msg })
            },
        }
    }
}

/// Builds tree-violation errors field by field.
pub struct ErrorBuilder {
    pub error: WalDBError,
}

impl ErrorBuilder {
    /// Start a tree-violation error for the rejected path.
    pub fn tree_violation(path: &str) -> (r: ErrorBuilder)
        ensures
            r.error matches WalDBError::TreeStructureViolation { path: p, parent, reason }
                && p@ == path@ && parent@.len() == 0 && reason@.len() == 0,
    {
        ErrorBuilder {
            error: WalDBError::TreeStructureViolation {
                path: String::from_str(path),
                parent: String::new(),
                reason: String::new(),
            },
        }
    }

    /// Set the offending parent on a tree-violation error.
    pub fn parent(self, parent: &str) -> (r: ErrorBuilder)
        ensures
            self.error matches WalDBError::TreeStructureViolation { path: p, reason: rs, .. }
                ==> r.error matches WalDBError::TreeStructureViolation {
                path: p2,
                parent: pa,
                reason: rs2,
            } && p2 == p && rs2 == rs && pa@ == parent@,
            !(self.error is TreeStructureViolation) ==> r.error == self.error,
    {
        match self.error {
            WalDBError::TreeStructureViolation { path, reason, .. } => ErrorBuilder {
                error: WalDBError::TreeStructureViolation {
                    path,
                    parent: String::from_str(parent),
                    reason,
                },
            },
            other => ErrorBuilder { error: other },
        }
    }

    /// Set the explanation on an error that carries one.
    pub fn reason(self, reason: &str) -> (r: ErrorBuilder)
        ensures
            self.error matches WalDBError::TreeStructureViolation { path: p, parent: pa, .. }
                ==> r.error matches WalDBError::TreeStructureViolation {
                path: p2,
                parent: pa2,
                reason: rs,
            } && p2 == p && pa2 == pa && rs@ == reason@,
    {
        match self.error {
            WalDBError::TreeStructureViolation { path, parent, .. } => ErrorBuilder {
                error: WalDBError::TreeStructureViolation {
                    path,
                    parent,
                    reason: String::from_str(reason),
                },
            },
            WalDBError::SegmentCorruption { path, offset, .. } => ErrorBuilder {
                error: WalDBError::SegmentCorruption {
                    path,
                    offset,
                    reason: String::from_str(reason),
                },
            },
            WalDBError::CompactionFailed { level, segment_count, .. } => ErrorBuilder {
                error: WalDBError::CompactionFailed {
                    level,
                    segment_count,
                    reason: String::from_str(reason),
                },
            },
            WalDBError::InvalidPath { path, .. } => ErrorBuilder {
                error: WalDBError::InvalidPath { path, reason: String::from_str(reason) },
            },
            WalDBError::InvalidPattern { pattern, .. } => ErrorBuilder {
                error: WalDBError::InvalidPattern { pattern, reason: String::from_str(reason) },
            },
            other => ErrorBuilder { error: other },
        }
    }

    /// Finish building and hand the error out.
    pub fn build(self) -> (r: WalDBError)
        ensures
            r == self.error,
    {
        self.error
    }
}

} // verus!
