//! The error type of the engine and the rules on event names.

use vstd::prelude::*;
use vstd::string::*;
use vstd::utf8::*;

use crate::text::{decimal, push_decimal, str_eq};
use crate::types::{Granularity, Period};

verus! {

/// The error of every fallible operation.
#[derive(Debug)]
pub enum InoxSetError {
    /// The catalog's storage failed; holds the storage layer's message.
    Catalog(String),
    /// A catalog transaction could not be begun or ended; holds the storage
    /// layer's message.
    CatalogTransaction(String),
    /// A catalog table could not be opened; holds the storage
    /// layer's message.
    CatalogTable(String),
    /// The storage below the catalog failed; holds the storage
    /// layer's message.
    CatalogStorage(String),
    /// A catalog transaction could not be committed; holds the storage
    /// layer's message.
    CatalogCommit(String),
    /// A bitmap file could not be read or written.
    BitmapIo {
        /// Path of the file.
        path: String,
        /// Message of the underlying I/O error.
        source: String,
    },
    /// A period does not have the granularity configured for its event.
    GranularityMismatch {
        /// Name of the event.
        event: String,
        /// The period that was given.
        period: Period,
        /// The granularity that was expected.
        expected: Granularity,
    },
    /// A bitmap could not be decoded.
    BitmapCorrupted {
        /// Name of the event.
        event: String,
        /// The period of the bitmap.
        period: Period,
    },
    /// An event name is empty, `.` or `..`, or holds a character outside
    /// `[a-zA-Z0-9_:.-]`.
    InvalidEventName(String),
    /// An event name is registered already.
    EventAlreadyRegistered(String),
    /// A mutating operation on a read-only store.
    ReadOnly,
    /// An operation on a closed store.
    Closed,
    /// An invalid or missing setting.
    Configuration(String),
    /// The catalog holds data that cannot be interpreted.
    CatalogCorrupted {
        /// What was found and why it is invalid.
        context: String,
    },
    /// A period with a component out of its calendar range.
    InvalidPeriod {
        /// The period that was given.
        period: Period,
        /// Names the component and its range.
        reason: String,
    },
}

/// The contents of an [`InoxSetError`].
pub enum ErrorView {
    Catalog(Seq<char>),
    CatalogTransaction(Seq<char>),
    CatalogTable(Seq<char>),
    CatalogStorage(Seq<char>),
    CatalogCommit(Seq<char>),
    BitmapIo { path: Seq<char>, source: Seq<char> },
    GranularityMismatch { event: Seq<char>, period: Period, expected: Granularity },
    BitmapCorrupted { event: Seq<char>, period: Period },
    InvalidEventName(Seq<char>),
    EventAlreadyRegistered(Seq<char>),
    ReadOnly,
    Closed,
    Configuration(Seq<char>),
    CatalogCorrupted { context: Seq<char> },
    InvalidPeriod { period: Period, reason: Seq<char> },
}

impl View for InoxSetError {
    type V = ErrorView;

    open spec fn view(&self) -> ErrorView {
        match *self {
            InoxSetError::Catalog(m) => ErrorView::Catalog(m@),
            InoxSetError::CatalogTransaction(m) => ErrorView::CatalogTransaction(m@),
            InoxSetError::CatalogTable(m) => ErrorView::CatalogTable(m@),
            InoxSetError::CatalogStorage(m) => ErrorView::CatalogStorage(m@),
            InoxSetError::CatalogCommit(m) => ErrorView::CatalogCommit(m@),
            InoxSetError::BitmapIo { path, source } => ErrorView::BitmapIo {
                path: path@,
                source: source@,
            },
            InoxSetError::GranularityMismatch { event, period, expected } => {
                ErrorView::GranularityMismatch { event: event@, period, expected }
            },
            InoxSetError::BitmapCorrupted { event, period } => ErrorView::BitmapCorrupted {
                event: event@,
                period,
            },
            InoxSetError::InvalidEventName(n) => ErrorView::InvalidEventName(n@),
            InoxSetError::EventAlreadyRegistered(n) => ErrorView::EventAlreadyRegistered(n@),
            InoxSetError::ReadOnly => ErrorView::ReadOnly,
            InoxSetError::Closed => ErrorView::Closed,
            InoxSetError::Configuration(m) => ErrorView::Configuration(m@),
            InoxSetError::CatalogCorrupted { context } => ErrorView::CatalogCorrupted {
                context: context@,
            },
            InoxSetError::InvalidPeriod { period, reason } => ErrorView::InvalidPeriod {
                period,
                reason: reason@,
            },
        }
    }
}

/// The debug rendering of a granularity.
pub open spec fn granularity_text(g: Granularity) -> Seq<char> {
    match g {
        Granularity::Static => "None"@,
        Granularity::Hour => "Hour"@,
        Granularity::Day => "Day"@,
        Granularity::Month => "Month"@,
        Granularity::Year => "Year"@,
    }
}

/// The debug rendering of a period.
pub open spec fn period_text(p: Period) -> Seq<char> {
    match p {
        Period::Static => "Static"@,
        Period::Hour(y, m, d, h) => "Hour("@ + decimal(y as nat) + ", "@ + decimal(m as nat)
            + ", "@ + decimal(d as nat) + ", "@ + decimal(h as nat) + ")"@,
        Period::Day(y, m, d) => "Day("@ + decimal(y as nat) + ", "@ + decimal(m as nat) + ", "@
            + decimal(d as nat) + ")"@,
        Period::Month(y, m) => "Month("@ + decimal(y as nat) + ", "@ + decimal(m as nat) + ")"@,
        Period::Year(y) => "Year("@ + decimal(y as nat) + ")"@,
    }
}

impl ErrorView {
    /// The message shown to users.
    pub open spec fn message(self) -> Seq<char> {
        match self {
            ErrorView::Catalog(m) => "catalog error: "@ + m,
            ErrorView::CatalogTransaction(m) => "catalog transaction error: "@ + m,
            ErrorView::CatalogTable(m) => "catalog table error: "@ + m,
            ErrorView::CatalogStorage(m) => "catalog storage error: "@ + m,
            ErrorView::CatalogCommit(m) => "catalog commit error: "@ + m,
            ErrorView::BitmapIo { path, source } => "bitmap file I/O: "@ + path + ": "@ + source,
            ErrorView::GranularityMismatch { event, period, expected } => "period "@ + period_text(
                period,
            ) + " does not match granularity "@ + granularity_text(expected) + " for event "@
                + event,
            ErrorView::BitmapCorrupted { event, period } => "bitmap deserialization failed for "@
                + event + " at "@ + period_text(period),
            ErrorView::InvalidEventName(n) => "invalid event name: "@ + n
                + " (allowed: [a-zA-Z0-9_:.\\-])"@,
            ErrorView::EventAlreadyRegistered(n) => "event already registered: "@ + n,
            ErrorView::ReadOnly => "store is read-only"@,
            ErrorView::Closed => "store is closed"@,
            ErrorView::Configuration(m) => "configuration error: "@ + m,
            ErrorView::CatalogCorrupted { context } => "catalog data corrupted: "@ + context,
            ErrorView::InvalidPeriod { period, reason } => "invalid period "@ + period_text(period)
                + ": "@ + reason,
        }
    }
}

fn push_granularity(out: &mut String, g: Granularity)
    ensures
        final(out)@ == old(out)@ + granularity_text(g),
{
    match g {
        Granularity::Static => out.append("None"),
        Granularity::Hour => out.append("Hour"),
        Granularity::Day => out.append("Day"),
        Granularity::Month => out.append("Month"),
        Granularity::Year => out.append("Year"),
    }
}

fn push_period(out: &mut String, p: Period)
    ensures
        final(out)@ == old(out)@ + period_text(p),
{
    match p {
        Period::Static => {
            out.append("Static");
        },
        Period::Hour(y, m, d, h) => {
            out.append("Hour(");
            push_decimal(out, y as u64);
            out.append(", ");
            push_decimal(out, m as u64);
            out.append(", ");
            push_decimal(out, d as u64);
            out.append(", ");
            push_decimal(out, h as u64);
            out.append(")");
        },
        Period::Day(y, m, d) => {
            out.append("Day(");
            push_decimal(out, y as u64);
            out.append(", ");
            push_decimal(out, m as u64);
            out.append(", ");
            push_decimal(out, d as u64);
            out.append(")");
        },
        Period::Month(y, m) => {
            out.append("Month(");
            push_decimal(out, y as u64);
            out.append(", ");
            push_decimal(out, m as u64);
            out.append(")");
        },
        Period::Year(y) => {
            out.append("Year(");
            push_decimal(out, y as u64);
            out.append(")");
        },
    }
    assert(out@ =~= old(out)@ + period_text(p));
}

impl InoxSetError {
    /// Returns the message shown to users.
    pub fn message(&self) -> (r: String)
        ensures
            r@ == self@.message(),
    {
        let mut out = String::new();
        match self {
            InoxSetError::Catalog(m) => {
                out.append("catalog error: ");
                out.append(m.as_str());
            },
            InoxSetError::CatalogTransaction(m) => {
                out.append("catalog transaction error: ");
                out.append(m.as_str());
            },
            InoxSetError::CatalogTable(m) => {
                out.append("catalog table error: ");
                out.append(m.as_str());
            },
            InoxSetError::CatalogStorage(m) => {
                out.append("catalog storage error: ");
                out.append(m.as_str());
            },
            InoxSetError::CatalogCommit(m) => {
                out.append("catalog commit error: ");
                out.append(m.as_str());
            },
            InoxSetError::BitmapIo { path, source } => {
                out.append("bitmap file I/O: ");
                out.append(path.as_str());
                out.append(": ");
                out.append(source.as_str());
            },
            InoxSetError::GranularityMismatch { event, period, expected } => {
                out.append("period ");
                push_period(&mut out, *period);
                out.append(" does not match granularity ");
                push_granularity(&mut out, *expected);
                out.append(" for event ");
                out.append(event.as_str());
            },
            InoxSetError::BitmapCorrupted { event, period } => {
                out.append("bitmap deserialization failed for ");
                out.append(event.as_str());
                out.append(" at ");
                push_period(&mut out, *period);
            },
            InoxSetError::InvalidEventName(n) => {
                out.append("invalid event name: ");
                out.append(n.as_str());
                out.append(" (allowed: [a-zA-Z0-9_:.\\-])");
            },
            InoxSetError::EventAlreadyRegistered(n) => {
                out.append("event already registered: ");
                out.append(n.as_str());
            },
            InoxSetError::ReadOnly => {
                out.append("store is read-only");
            },
            InoxSetError::Closed => {
                out.append("store is closed");
            },
            InoxSetError::Configuration(m) => {
                out.append("configuration error: ");
                out.append(m.as_str());
            },
            InoxSetError::CatalogCorrupted { context } => {
                out.append("catalog data corrupted: ");
                out.append(context.as_str());
            },
            InoxSetError::InvalidPeriod { period, reason } => {
                out.append("invalid period ");
                push_period(&mut out, *period);
                out.append(": ");
                out.append(reason.as_str());
            },
        }
        assert(out@ =~= self@.message());
        out
    }
}

/// Whether `c` may stand in an event name.
pub open spec fn is_event_char(c: char) -> bool {
    ('a' <= c <= 'z') || ('A' <= c <= 'Z') || ('0' <= c <= '9') || c == '_' || c == ':' || c == '.'
        || c == '-'
}

/// Whether `name` is a legal event name: not empty, neither `.` nor `..`, and
/// made of characters of `[a-zA-Z0-9_:.-]`.
pub open spec fn valid_event_name(name: Seq<char>) -> bool {
    &&& name.len() > 0
    &&& name != "."@
    &&& name != ".."@
    &&& forall|i: int| 0 <= i < name.len() ==> is_event_char(#[trigger] name[i])
}

fn is_event_byte(b: u8) -> (r: bool)
    requires
        b < 128,
    ensures
        r == is_event_char(b as char),
{
    (97 <= b && b <= 122) || (65 <= b && b <= 90) || (48 <= b && b <= 57) || b == 95 || b == 58 || b
        == 46 || b == 45
}

fn all_event_bytes(name: &str) -> (r: bool)
    ensures
        r == forall|i: int| 0 <= i < name@.len() ==> is_event_char(#[trigger] name@[i]),
{
    if !name.is_ascii() {
        proof {
            let k = choose|k: int|
                0 <= k < name@.len() && !('\0' <= #[trigger] name@[k] <= '\u{7f}');
            assert(!is_event_char(name@[k]));
        }
        return false;
    }
    proof {
        is_ascii_chars_encode_utf8(name@);
    }
    let bytes = name.as_bytes();
    let mut i: usize = 0;
    while i < bytes.len()
        invariant
            i <= bytes.len(),
            bytes@.len() == name@.len(),
            is_ascii_chars(name@),
            forall|k: int| #![trigger name@[k]] 0 <= k < name@.len() ==> name@[k] as u8 == bytes@[k],
            forall|k: int| 0 <= k < i ==> is_event_char(#[trigger] name@[k]),
        decreases bytes.len() - i,
    {
        let ghost c = name@[i as int];
        assert('\0' <= c <= '\u{7f}');
        assert(bytes@[i as int] == c as u8);
        assert(bytes@[i as int] as char == c);
        if !is_event_byte(bytes[i]) {
            return false;
        }
        i = i + 1;
    }
    true
}

/// Accepts legal event names and returns [`InoxSetError::InvalidEventName`] for
/// any other text.
pub fn validate_event_name(name: &str) -> (r: Result<(), InoxSetError>)
    ensures
        r is Ok <==> valid_event_name(name@),
        r matches Err(e) ==> e@ == ErrorView::InvalidEventName(name@),
{
    if name.is_empty() || str_eq(name, ".") || str_eq(name, "..") || !all_event_bytes(name) {
        return Err(InoxSetError::InvalidEventName(name.to_owned()));
    }
    Ok(())
}

/// A legal event name is not empty, is neither one dot nor two, and is made of
/// letters and digits of ASCII, underscores, colons, dots and hyphens.
pub proof fn law_event_names(name: Seq<char>)
    ensures
        valid_event_name(name) <==> name.len() > 0 && name != seq!['.'] && name != seq!['.', '.']
            && forall|i: int|
            0 <= i < name.len() ==> ('a' <= #[trigger] name[i] && name[i] <= 'z') || ('A' <= name[i]
                && name[i] <= 'Z') || ('0' <= name[i] && name[i] <= '9') || name[i] == '_'
                || name[i] == ':' || name[i] == '.' || name[i] == '-',
{
    reveal_strlit(".");
    reveal_strlit("..");
    assert("."@ =~= seq!['.']);
    assert(".."@ =~= seq!['.', '.']);
    if valid_event_name(name) {
        assert forall|i: int| 0 <= i < name.len() implies ('a' <= #[trigger] name[i] && name[i]
            <= 'z') || ('A' <= name[i] && name[i] <= 'Z') || ('0' <= name[i] && name[i] <= '9')
            || name[i] == '_' || name[i] == ':' || name[i] == '.' || name[i] == '-' by {
            assert(is_event_char(name[i]));
        }
    }
}

/// What errors say to users, and that the view of an error is its fields.
pub proof fn law_messages(a: Seq<char>, b: Seq<char>, p: Period, g: Granularity)
    ensures
        ErrorView::Catalog(a).message() == "catalog error: "@ + a,
        ErrorView::CatalogTransaction(a).message() == "catalog transaction error: "@ + a,
        ErrorView::CatalogTable(a).message() == "catalog table error: "@ + a,
        ErrorView::CatalogStorage(a).message() == "catalog storage error: "@ + a,
        ErrorView::CatalogCommit(a).message() == "catalog commit error: "@ + a,
        (ErrorView::BitmapIo { path: a, source: b }).message() == "bitmap file I/O: "@ + a + ": "@
            + b,
        (ErrorView::GranularityMismatch { event: a, period: p, expected: g }).message() == "period "@
            + period_text(p) + " does not match granularity "@ + granularity_text(g)
            + " for event "@ + a,
        (ErrorView::BitmapCorrupted { event: a, period: p }).message()
            == "bitmap deserialization failed for "@ + a + " at "@ + period_text(p),
        ErrorView::InvalidEventName(a).message() == "invalid event name: "@ + a
            + " (allowed: [a-zA-Z0-9_:.\\-])"@,
        ErrorView::EventAlreadyRegistered(a).message() == "event already registered: "@ + a,
        ErrorView::ReadOnly.message() == "store is read-only"@,
        ErrorView::Closed.message() == "store is closed"@,
        ErrorView::Configuration(a).message() == "configuration error: "@ + a,
        (ErrorView::CatalogCorrupted { context: a }).message() == "catalog data corrupted: "@ + a,
        (ErrorView::InvalidPeriod { period: p, reason: a }).message() == "invalid period "@
            + period_text(p) + ": "@ + a,
{
}

/// How granularities and periods are named in messages.
pub proof fn law_names_in_messages(y: u16, m: u8, d: u8, h: u8)
    ensures
        granularity_text(Granularity::Static) == "None"@,
        granularity_text(Granularity::Hour) == "Hour"@,
        granularity_text(Granularity::Day) == "Day"@,
        granularity_text(Granularity::Month) == "Month"@,
        granularity_text(Granularity::Year) == "Year"@,
        period_text(Period::Static) == "Static"@,
        period_text(Period::Year(y)) == "Year("@ + decimal(y as nat) + ")"@,
        period_text(Period::Month(y, m)) == "Month("@ + decimal(y as nat) + ", "@ + decimal(
            m as nat,
        ) + ")"@,
        period_text(Period::Day(y, m, d)) == "Day("@ + decimal(y as nat) + ", "@ + decimal(m as nat)
            + ", "@ + decimal(d as nat) + ")"@,
        period_text(Period::Hour(y, m, d, h)) == "Hour("@ + decimal(y as nat) + ", "@ + decimal(
            m as nat,
        ) + ", "@ + decimal(d as nat) + ", "@ + decimal(h as nat) + ")"@,
{
}

/// The view of an error keeps its variant and its fields.
pub proof fn law_error_view(e: InoxSetError)
    ensures
        match e {
            InoxSetError::Catalog(m) => e@ == ErrorView::Catalog(m@),
            InoxSetError::CatalogTransaction(m) => e@ == ErrorView::CatalogTransaction(m@),
            InoxSetError::CatalogTable(m) => e@ == ErrorView::CatalogTable(m@),
            InoxSetError::CatalogStorage(m) => e@ == ErrorView::CatalogStorage(m@),
            InoxSetError::CatalogCommit(m) => e@ == ErrorView::CatalogCommit(m@),
            InoxSetError::BitmapIo { path, source } => e@ == (ErrorView::BitmapIo {
                path: path@,
                source: source@,
            }),
            InoxSetError::GranularityMismatch { event, period, expected } => e@ == (
            ErrorView::GranularityMismatch { event: event@, period, expected }),
            InoxSetError::BitmapCorrupted { event, period } => e@ == (ErrorView::BitmapCorrupted {
                event: event@,
                period,
            }),
            InoxSetError::InvalidEventName(n) => e@ == ErrorView::InvalidEventName(n@),
            InoxSetError::EventAlreadyRegistered(n) => e@ == ErrorView::EventAlreadyRegistered(n@),
            InoxSetError::ReadOnly => e@ == ErrorView::ReadOnly,
            InoxSetError::Closed => e@ == ErrorView::Closed,
            InoxSetError::Configuration(m) => e@ == ErrorView::Configuration(m@),
            InoxSetError::CatalogCorrupted { context } => e@ == (ErrorView::CatalogCorrupted {
                context: context@,
            }),
            InoxSetError::InvalidPeriod { period, reason } => e@ == (ErrorView::InvalidPeriod {
                period,
                reason: reason@,
            }),
        },
{
}

} // verus!
