//! The message store: random-access reads of one message's byte range
//! and its interpretation as a full body.
//!
//! The store holds the mailbox bytes it was opened over.  A read checks
//! the entry's byte range against those bytes and never trusts it:
//! a stale or corrupt entry yields an error, not a panic.

use vstd::prelude::*;
use vstd::string::StringExecFns;

use crate::error::AppError;
use crate::mime::AttachmentMeta;
use crate::mime::MailBody;
use crate::mime::body_matches;
use crate::mime::msg_boundary;
use crate::mime::msg_parts;
use crate::mime::part_content;
use crate::mime::spec_attachments;
use crate::mime::spec_html_of;
use crate::mime::spec_raw_headers;
use crate::mime::spec_text_of;
use crate::model::AttachmentInfo;
use crate::model::EmailBody;
use crate::model::MailEntry;
use crate::text::bytes_to_string;
use crate::text::lossy_utf8;

verus! {

/// Does the boundary body `d` render the message span `msg`?  The
/// attachment records are numbered by their position in the list, as
/// handed across the boundary.
pub open spec fn body_dto_ok(d: EmailBody, msg: Seq<u8>) -> bool {
    &&& match d.text {
        Some(t) => spec_text_of(msg) matches Some(tv) && t@ == lossy_utf8(tv),
        None => spec_text_of(msg) is None,
    }
    &&& match d.html {
        Some(h) => spec_html_of(msg) matches Some(hv) && h@ == lossy_utf8(hv),
        None => spec_html_of(msg) is None,
    }
    &&& d.raw_headers@ == lossy_utf8(spec_raw_headers(msg))
    &&& d.attachments@.len() == spec_attachments(msg).len()
    &&& forall|i: int|
        0 <= i < spec_attachments(msg).len() ==> {
            let a = spec_attachments(msg)[i];
            let di = #[trigger] d.attachments@[i];
            &&& di.filename@ == lossy_utf8(a.0)
            &&& di.content_type@ == lossy_utf8(a.1)
            &&& di.size == a.2
            &&& di.part_index == i
        }
}

/// Render one parsed body for the boundary.
pub fn body_to_dto(mb: &MailBody, Ghost(msg): Ghost<Seq<u8>>) -> (r: EmailBody)
    requires
        body_matches(*mb, msg),
    ensures
        body_dto_ok(r, msg),
{
    let text: Option<String> = match &mb.text {
        Some(t) => Some(bytes_to_string(t.as_slice())),
        None => None,
    };
    let html: Option<String> = match &mb.html {
        Some(h) => Some(bytes_to_string(h.as_slice())),
        None => None,
    };
    let raw_headers = bytes_to_string(mb.raw_headers.as_slice());
    let n: usize = mb.attachments.len();
    let mut attachments: Vec<AttachmentInfo> = Vec::new();
    let mut i: usize = 0;
    while i < n
        invariant
            0 <= i <= n == mb.attachments@.len(),
            body_matches(*mb, msg),
            attachments@.len() == i,
            forall|j: int|
                0 <= j < i ==> {
                    let a = spec_attachments(msg)[j];
                    let dj = #[trigger] attachments@[j];
                    &&& dj.filename@ == lossy_utf8(a.0)
                    &&& dj.content_type@ == lossy_utf8(a.1)
                    &&& dj.size == a.2
                    &&& dj.part_index == j
                },
        decreases n - i,
    {
        let m = &mb.attachments[i];
        proof {
            assert(*m == mb.attachments@[i as int]);
        }
        attachments.push(
            AttachmentInfo {
                filename: bytes_to_string(m.filename.as_slice()),
                content_type: bytes_to_string(m.content_type.as_slice()),
                size: m.size as u64,
                part_index: i,
            },
        );
        i += 1;
    }
    EmailBody { text, html, raw_headers, attachments }
}

/// The store: the opened mailbox's bytes.
pub struct MboxStore {
    pub data: Vec<u8>,
}

impl MboxStore {
    /// Open a store over the mailbox bytes.
    pub fn new(data: Vec<u8>) -> (s: MboxStore)
        ensures
            s.data@ == data@,
    {
        MboxStore { data }
    }

    /// Is the entry's byte range within the store?
    pub open spec fn entry_in_bounds(&self, e: MailEntry) -> bool {
        e.offset + e.length <= self.data@.len()
    }

    /// The raw bytes of the entry's message span.
    pub open spec fn span_of(&self, e: MailEntry) -> Seq<u8> {
        self.data@.subrange(e.offset as int, e.offset + e.length)
    }

    /// Read the entry's byte range and parse it into a full body.
    /// Succeeds exactly when the range lies within the store.
    pub fn get_message(&self, e: &MailEntry) -> (r: Result<MailBody, AppError>)
        ensures
            match r {
                Ok(mb) => self.entry_in_bounds(*e) && body_matches(mb, self.span_of(*e)),
                Err(err) => !self.entry_in_bounds(*e) && (err matches AppError::MboxShell(m)
                    && m@ == "message range outside the file"@),
            },
    {
        let dl: usize = self.data.len();
        if e.length > dl || e.offset > dl - e.length {
            return Err(
                AppError::MboxShell(String::from_str("message range outside the file")),
            );
        }
        let span = vstd::slice::slice_subrange(self.data.as_slice(), e.offset, e.offset
            + e.length);
        proof {
            assert(span@ =~= self.span_of(*e));
        }
        Ok(crate::mime::parse_message(span))
    }

    /// Re-read the entry's byte range and extract one attachment's
    /// decoded bytes, addressed by the part position recorded in its
    /// metadata.  Succeeds exactly when the range is within the store
    /// and the message has such a part.
    pub fn get_attachment(&self, e: &MailEntry, meta: &AttachmentMeta) -> (r: Result<
        Vec<u8>,
        AppError,
    >)
        ensures
            match r {
                Ok(v) => self.entry_in_bounds(*e) && msg_boundary(self.span_of(*e)) is Some
                    && meta.part_index < msg_parts(self.span_of(*e)).len() && v@ == part_content(
                    msg_parts(self.span_of(*e))[meta.part_index as int],
                ),
                Err(err) => err matches AppError::MboxShell(m) && if !self.entry_in_bounds(*e) {
                    m@ == "message range outside the file"@
                } else {
                    (msg_boundary(self.span_of(*e)) is None || meta.part_index >= msg_parts(
                        self.span_of(*e),
                    ).len()) && m@ == "attachment part not found"@
                },
            },
    {
        let dl: usize = self.data.len();
        if e.length > dl || e.offset > dl - e.length {
            return Err(
                AppError::MboxShell(String::from_str("message range outside the file")),
            );
        }
        let span = vstd::slice::slice_subrange(self.data.as_slice(), e.offset, e.offset
            + e.length);
        proof {
            assert(span@ =~= self.span_of(*e));
        }
        match crate::mime::get_part_content(span, meta.part_index) {
            Some(v) => Ok(v),
            None => Err(AppError::MboxShell(String::from_str("attachment part not found"))),
        }
    }
}

} // verus!
