//! The data model: internal index records kept as raw bytes, and the
//! string-valued records handed across the crate boundary.
//!
//! Internally every text field is a byte vector, because mail data need
//! not be valid UTF-8 and all parsing contracts are stated over bytes.
//! The public records ([`EmailEntry`], [`EmailBody`] and friends) carry
//! `String`s produced by lossy UTF-8 decoding at the boundary.

use vstd::prelude::*;

use crate::date::MailDate;
use crate::text::ascii_seq;
use crate::text::bytes_to_string;
use crate::text::lossy_utf8;

verus! {

/// A mailbox participant as parsed from a header: display name and
/// address proper, both raw bytes.
pub struct MailAddress {
    pub name: Vec<u8>,
    pub address: Vec<u8>,
}

/// One message in the index: its byte range within the mailbox file and
/// the metadata parsed from its headers.  `sequence` is the dense
/// post-sort position every other operation addresses the message by.
pub struct MailEntry {
    pub sequence: u64,
    pub offset: usize,
    pub length: usize,
    pub date: MailDate,
    pub from: MailAddress,
    pub to: Vec<MailAddress>,
    pub cc: Vec<MailAddress>,
    pub subject: Vec<u8>,
    pub has_attachments: bool,
    pub labels: Vec<Vec<u8>>,
}

impl MailEntry {
    /// Bounds every entry of an index over a file of `size` bytes obeys.
    pub open spec fn wf(&self, size: int) -> bool {
        &&& self.date.wf()
        &&& self.offset + self.length <= size
    }
}

/// The spec-level value of an index entry: every field as mathematics.
#[verifier::ext_equal]
pub struct EntryV {
    pub sequence: int,
    pub offset: int,
    pub length: int,
    pub date: MailDate,
    pub from_name: Seq<u8>,
    pub from_address: Seq<u8>,
    pub to: Seq<(Seq<u8>, Seq<u8>)>,
    pub cc: Seq<(Seq<u8>, Seq<u8>)>,
    pub subject: Seq<u8>,
    pub has_attachments: bool,
    pub labels: Seq<Seq<u8>>,
}

/// The spec-level value of one entry.
pub open spec fn entry_v(e: MailEntry) -> EntryV {
    EntryV {
        sequence: e.sequence as int,
        offset: e.offset as int,
        length: e.length as int,
        date: e.date,
        from_name: e.from.name@,
        from_address: e.from.address@,
        to: e.to@.map_values(|a: MailAddress| (a.name@, a.address@)),
        cc: e.cc@.map_values(|a: MailAddress| (a.name@, a.address@)),
        subject: e.subject@,
        has_attachments: e.has_attachments,
        labels: e.labels@.map_values(|l: Vec<u8>| l@),
    }
}

impl EntryV {
    /// Bounds every spec-level entry of an index over `size` bytes
    /// obeys.
    pub open spec fn wf(&self, size: int) -> bool {
        &&& self.date.wf()
        &&& 0 <= self.offset
        &&& 0 <= self.length
        &&& self.offset + self.length <= size
    }
}

/// An address record handed across the boundary.
#[derive(Debug, Clone)]
pub struct EmailAddress {
    pub name: String,
    pub address: String,
}

/// An index entry handed across the boundary.
#[derive(Debug, Clone)]
pub struct EmailEntry {
    pub index: usize,
    pub offset: u64,
    pub length: u64,
    pub date: String,
    pub from_name: String,
    pub from_address: String,
    pub to: Vec<EmailAddress>,
    pub cc: Vec<EmailAddress>,
    pub subject: String,
    pub has_attachments: bool,
    pub labels: Vec<String>,
}

/// One attachment's metadata within a parsed body.  `part_index` is the
/// position of the part in that parse of the MIME tree; it is only
/// meaningful against the same entry's bytes.
#[derive(Debug, Clone)]
pub struct AttachmentInfo {
    pub filename: String,
    pub content_type: String,
    pub size: u64,
    pub part_index: usize,
}

/// A fully parsed message body handed across the boundary.
#[derive(Debug, Clone)]
pub struct EmailBody {
    pub text: Option<String>,
    pub html: Option<String>,
    pub raw_headers: String,
    pub attachments: Vec<AttachmentInfo>,
}

/// One label with the number of entries carrying it.
#[derive(Debug, Clone)]
pub struct LabelCount {
    pub label: String,
    pub count: usize,
}

/// Summary statistics returned by a successful open.
#[derive(Debug, Clone)]
pub struct MboxStats {
    pub total_messages: usize,
    pub total_with_attachments: usize,
    pub labels: Vec<LabelCount>,
}

/// A search outcome: the matching entries up to the caller's limit, and
/// the count of all matches before truncation.
#[derive(Debug, Clone)]
pub struct SearchResults {
    pub emails: Vec<EmailEntry>,
    pub total_count: usize,
}

/// The characters of a date as rendered for the boundary records.
pub open spec fn date_chars(d: MailDate) -> Seq<char> {
    d.rfc3339_bytes().map_values(|b: u8| b as char)
}

/// Does the boundary address `d` render the internal address `a`?
pub open spec fn addr_dto_ok(d: EmailAddress, a: MailAddress) -> bool {
    &&& d.name@ == lossy_utf8(a.name@)
    &&& d.address@ == lossy_utf8(a.address@)
}

/// Does the boundary entry `d` render the spec-level entry `ev`?
pub open spec fn entry_dto_ok(d: EmailEntry, ev: EntryV) -> bool {
    &&& d.index == ev.sequence
    &&& d.offset == ev.offset
    &&& d.length == ev.length
    &&& d.date@ == date_chars(ev.date)
    &&& d.from_name@ == lossy_utf8(ev.from_name)
    &&& d.from_address@ == lossy_utf8(ev.from_address)
    &&& d.to@.len() == ev.to.len()
    &&& forall|i: int|
        0 <= i < ev.to.len() ==> (#[trigger] d.to@[i]).name@ == lossy_utf8(ev.to[i].0)
            && d.to@[i].address@ == lossy_utf8(ev.to[i].1)
    &&& d.cc@.len() == ev.cc.len()
    &&& forall|i: int|
        0 <= i < ev.cc.len() ==> (#[trigger] d.cc@[i]).name@ == lossy_utf8(ev.cc[i].0)
            && d.cc@[i].address@ == lossy_utf8(ev.cc[i].1)
    &&& d.subject@ == lossy_utf8(ev.subject)
    &&& d.has_attachments == ev.has_attachments
    &&& d.labels@.len() == ev.labels.len()
    &&& forall|i: int|
        0 <= i < ev.labels.len() ==> (#[trigger] d.labels@[i])@ == lossy_utf8(ev.labels[i])
}

/// Render one internal address for the boundary.
pub fn addr_to_dto(a: &MailAddress) -> (r: EmailAddress)
    ensures
        addr_dto_ok(r, *a),
{
    EmailAddress {
        name: bytes_to_string(a.name.as_slice()),
        address: bytes_to_string(a.address.as_slice()),
    }
}

/// Render a list of internal addresses for the boundary.
pub fn addrs_to_dto(a: &Vec<MailAddress>) -> (r: Vec<EmailAddress>)
    ensures
        r@.len() == a@.len(),
        forall|i: int| 0 <= i < a@.len() ==> addr_dto_ok(#[trigger] r@[i], a@[i]),
{
    let mut r: Vec<EmailAddress> = Vec::new();
    let n: usize = a.len();
    let mut i: usize = 0;
    while i < n
        invariant
            0 <= i <= n == a@.len(),
            r@.len() == i,
            forall|j: int| 0 <= j < i ==> addr_dto_ok(#[trigger] r@[j], a@[j]),
        decreases n - i,
    {
        r.push(addr_to_dto(&a[i]));
        i += 1;
    }
    r
}

/// Render one internal entry for the boundary.
pub fn entry_to_dto(e: &MailEntry) -> (r: EmailEntry)
    requires
        e.date.wf(),
        e.sequence <= usize::MAX,
    ensures
        entry_dto_ok(r, entry_v(*e)),
{
    let date_bytes = e.date.to_rfc3339();
    proof {
        crate::date::lemma_rfc3339_ascii(e.date);
        assert(ascii_seq(date_bytes@));
    }
    let date = bytes_to_string(date_bytes.as_slice());
    let mut labels: Vec<String> = Vec::new();
    let n: usize = e.labels.len();
    let mut i: usize = 0;
    while i < n
        invariant
            0 <= i <= n == e.labels@.len(),
            labels@.len() == i,
            forall|j: int|
                0 <= j < i ==> (#[trigger] labels@[j])@ == lossy_utf8(e.labels@[j]@),
        decreases n - i,
    {
        labels.push(bytes_to_string(e.labels[i].as_slice()));
        i += 1;
    }
    EmailEntry {
        index: e.sequence as usize,
        offset: e.offset as u64,
        length: e.length as u64,
        date,
        from_name: bytes_to_string(e.from.name.as_slice()),
        from_address: bytes_to_string(e.from.address.as_slice()),
        to: addrs_to_dto(&e.to),
        cc: addrs_to_dto(&e.cc),
        subject: bytes_to_string(e.subject.as_slice()),
        has_attachments: e.has_attachments,
        labels,
    }
}

} // verus!
