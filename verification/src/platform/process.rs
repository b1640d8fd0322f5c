//! Identifying the processes a user can choose to monitor.
//!
//! Read-only and minimal: a process is known by its identifier and its executable's file
//! name, and nothing here needs a capability beyond observation.

use crate::platform::connection::ERROR_INSUFFICIENT_BUFFER;
use crate::platform::flow::ERROR_ACCESS_DENIED;
use crate::platform::Error;
use vstd::prelude::*;

verus! {

/// The decimal digit `d` as a character.
pub open spec fn digit_char(d: nat) -> char {
    (48 + d) as char
}

/// `n` written in decimal, most significant digit first, with no sign or padding.
pub open spec fn decimal_text(n: nat) -> Seq<char>
    decreases n,
{
    if n < 10 {
        seq![digit_char(n)]
    } else {
        decimal_text(n / 10).push(digit_char(n % 10))
    }
}

/// `n` formatted with `Display`, which for an unsigned integer is its decimal digits.
#[verifier::external_body]
pub(crate) fn decimal(n: u32) -> (s: String)
    ensures
        s@ == decimal_text(n as nat),
{
    format!("{}", n)
}

/// Whether a UTF-16 code unit is a surrogate, one half of a pair.
pub open spec fn is_surrogate(unit: u16) -> bool {
    0xD800 <= unit <= 0xDFFF
}

/// Whether a UTF-16 code unit opens a surrogate pair.
pub open spec fn is_lead_surrogate(unit: u16) -> bool {
    0xD800 <= unit <= 0xDBFF
}

/// Whether a UTF-16 code unit closes a surrogate pair.
pub open spec fn is_trail_surrogate(unit: u16) -> bool {
    0xDC00 <= unit <= 0xDFFF
}

/// The text a run of UTF-16 code units encodes, as `String::from_utf16_lossy` decodes it:
/// a unit outside the surrogate range is its own character, a lead surrogate followed by
/// a trail surrogate is the character the pair encodes, and any other surrogate is
/// U+FFFD, with decoding going on at the next unit.
pub open spec fn utf16_lossy(units: Seq<u16>) -> Seq<char>
    decreases units.len(),
{
    if units.len() == 0 {
        Seq::empty()
    } else if !is_surrogate(units[0]) {
        seq![units[0] as char] + utf16_lossy(units.drop_first())
    } else if is_lead_surrogate(units[0]) && units.len() >= 2 && is_trail_surrogate(units[1]) {
        seq![(0x10000 + (units[0] - 0xD800) * 0x400 + (units[1] - 0xDC00)) as char]
            + utf16_lossy(units.subrange(2, units.len() as int))
    } else {
        seq!['\u{FFFD}'] + utf16_lossy(units.drop_first())
    }
}

/// `String::from_utf16_lossy`: decodes UTF-16, replacing what cannot be decoded.
///
/// Trusted to return exactly the decoding `utf16_lossy` states, which is how the standard
/// library documents it: well-formed UTF-16 decoded, each unpaired surrogate replaced by
/// U+FFFD.
#[verifier::external_body]
fn decode_utf16_lossy(units: &[u16]) -> (s: String)
    ensures
        s@ == utf16_lossy(units@),
{
    String::from_utf16_lossy(units)
}

/// Operating-system process identifier.
///
/// A type of its own because a bare `u32` is interchangeable with a port, an interface
/// index or a byte count.
#[derive(Debug, Clone, Copy, PartialEq, Eq, Structural, PartialOrd, Ord, Hash)]
pub struct Pid(u32);

impl Pid {
    /// The raw identifier.
    pub closed spec fn raw(self) -> u32 {
        self.0
    }

    /// Wraps a raw operating-system process identifier.
    pub fn new(raw: u32) -> (pid: Pid)
        ensures
            pid.raw() == raw,
    {
        Pid(raw)
    }

    /// The raw identifier, for handing back to an operating-system call.
    pub fn get(self) -> (raw: u32)
        ensures
            raw == self.raw(),
    {
        self.0
    }

    /// The identifier in decimal, as logs and the user interface show it.
    pub fn to_text(self) -> (s: String)
        ensures
            s@ == decimal_text(self.raw() as nat),
    {
        decimal(self.0)
    }

    /// Two identifiers are the same exactly when their raw numbers are.
    pub proof fn lemma_raw_injective(a: Pid, b: Pid)
        ensures
            (a.raw() == b.raw()) == (a == b),
    {
    }
}

/// A running process, as far as an unprivileged observer can see it.
#[derive(Debug, Clone, PartialEq, Eq)]
pub struct ProcessInfo {
    /// Identifier to key everything else by.
    pub pid: Pid,
    /// Executable file name, such as `Discord.exe`: a label, not an identity.
    pub name: String,
}

/// Whether `end` is where the text in `units` stops: at the first NUL, or at the end of
/// the buffer when there is none.
pub open spec fn text_ends_at(units: Seq<u16>, end: int) -> bool {
    &&& 0 <= end <= units.len()
    &&& forall|k: int| 0 <= k < end ==> units[k] != 0
    &&& end < units.len() ==> units[end] == 0
}

/// Reads a NUL-terminated wide string out of a fixed-size operating-system buffer.
///
/// The buffer is padded past its terminator with whatever was left there, and names are
/// not guaranteed to be well-formed UTF-16: the result is lossy on purpose, because a
/// replacement character is better than dropping a process the user is looking for.
pub fn name_from_wide(buffer: &[u16]) -> (name: String)
    ensures
        exists|end: int| text_ends_at(buffer@, end) && name@ == utf16_lossy(buffer@.take(end)),
{
    let mut end: usize = 0;
    while end < buffer.len() && buffer[end] != 0
        invariant
            end <= buffer@.len(),
            forall|k: int| 0 <= k < end ==> buffer@[k] != 0,
        decreases buffer@.len() - end,
    {
        end = end + 1;
    }
    let text = vstd::slice::slice_subrange(buffer, 0, end);
    proof {
        assert(text@ =~= buffer@.take(end as int));
        assert(text_ends_at(buffer@, end as int));
    }
    decode_utf16_lossy(text)
}

/// The text ends at exactly one place.
pub proof fn lemma_text_end_unique(units: Seq<u16>, a: int, b: int)
    requires
        text_ends_at(units, a),
        text_ends_at(units, b),
    ensures
        a == b,
{
    if a < b {
        assert(units[a] != 0);
    } else if b < a {
        assert(units[b] != 0);
    }
}

/// Reads a parent identifier, refusing zero: that is what the snapshot writes when it will
/// not name a creator, and identifier zero is the idle process, nobody's parent.
pub fn parent_of(raw: u32) -> (parent: Option<Pid>)
    ensures
        raw == 0 ==> parent is None,
        raw != 0 ==> (parent matches Some(p) && p.raw() == raw),
{
    if raw == 0 {
        None
    } else {
        Some(Pid::new(raw))
    }
}


/// `ERROR_NO_MORE_FILES`: the snapshot has no further entries.
pub const ERROR_NO_MORE_FILES: u32 = 18;
/// `ERROR_GEN_FAILURE`: what opening a process that is exiting can report.
pub const ERROR_GEN_FAILURE: u32 = 31;
/// `ERROR_INVALID_PARAMETER`: what naming a process that no longer exists reports.
pub const ERROR_INVALID_PARAMETER: u32 = 87;
/// Initial buffer for an image path, in UTF-16 code units.
pub const INITIAL_PATH_CAPACITY: usize = 260;
/// Ceiling for the image-path buffer, in UTF-16 code units: the documented maximum for an
/// extended-length path, so growing stops rather than going on without bound.
pub const MAX_PATH_CAPACITY: usize = 32_768;

/// Whether a process could not be opened for querying for a reason that is a fact about
/// it rather than a failure here: it belongs to another user or runs at a higher integrity
/// level, or it no longer exists.
pub fn unobservable(code: u32) -> (b: bool)
    ensures
        b == (code == ERROR_ACCESS_DENIED || code == ERROR_INVALID_PARAMETER || code == ERROR_GEN_FAILURE),
{
    code == ERROR_ACCESS_DENIED || code == ERROR_INVALID_PARAMETER || code == ERROR_GEN_FAILURE
}

/// How a walk of the process snapshot ends when the next entry cannot be read: the end of
/// the list, or a walk cut short, which is an error, since a partial list would present a
/// running game as not running.
pub fn walk_end(api: &'static str, code: u32) -> (r: Result<(), Error>)
    ensures
        r == if code == ERROR_NO_MORE_FILES {
            Ok::<(), Error>(())
        } else {
            Err(Error::Os { api, code })
        },
{
    if code == ERROR_NO_MORE_FILES {
        Ok(())
    } else {
        Err(Error::Os { api, code })
    }
}

/// What to do after reading an image path failed.
#[derive(Debug, Clone, Copy, PartialEq, Eq, Structural)]
pub enum PathStep {
    /// The buffer was too small; grow it to this many code units and ask again.
    Grow(usize),
    /// The process exited while it was being asked about: a race, not a fault.
    Gone,
    /// The call failed with this code.
    Failed(u32),
}

/// Reads the error of a failed image-path query on a buffer of `capacity` code units.
pub fn path_step(code: u32, capacity: usize) -> (step: PathStep)
    ensures
        step == if code == ERROR_INSUFFICIENT_BUFFER && capacity < MAX_PATH_CAPACITY {
            PathStep::Grow(
                if capacity * 2 < MAX_PATH_CAPACITY {
                    (capacity * 2) as usize
                } else {
                    MAX_PATH_CAPACITY
                },
            )
        } else if code == ERROR_INVALID_PARAMETER || code == ERROR_GEN_FAILURE {
            PathStep::Gone
        } else {
            PathStep::Failed(code)
        },
{
    if code == ERROR_INSUFFICIENT_BUFFER && capacity < MAX_PATH_CAPACITY {
        let doubled = capacity * 2;
        PathStep::Grow(
            if doubled < MAX_PATH_CAPACITY {
                doubled
            } else {
                MAX_PATH_CAPACITY
            },
        )
    } else if code == ERROR_INVALID_PARAMETER || code == ERROR_GEN_FAILURE {
        PathStep::Gone
    } else {
        PathStep::Failed(code)
    }
}

/// How many code units of a path buffer hold the path: what the call reported, never more
/// than the buffer.
pub fn written_units(length: u32, capacity: usize) -> (n: usize)
    ensures
        n == if length < capacity {
            length as int
        } else {
            capacity as int
        },
{
    if (length as usize) < capacity {
        length as usize
    } else {
        capacity
    }
}

} // verus!
