//! The index builder: one streaming pass over the mailbox bytes that
//! finds message boundaries and parses each message's headers into a
//! [`MailEntry`].
//!
//! A boundary is a line that begins with `From ` and stands at the start
//! of the file or right after an empty line; a quoted `>From` inside a
//! body never qualifies.  Messages whose headers cannot be parsed still
//! yield an entry — empty fields and the sentinel date — so that the
//! byte ranges stay enumerable.

use vstd::prelude::*;

use crate::date::MailDate;
use crate::date::spec_parse_date;
use crate::headers::field_or_empty;
use crate::headers::from_marker;
use crate::headers::header_lines_of;
use crate::headers::header_value;
use crate::headers::spec_lines;
use crate::headers::split_message;
use crate::headers::to_lines;
use crate::headers::get_header;
use crate::model::MailAddress;
use crate::model::MailEntry;
use crate::text::contains_ci;
use crate::text::contains_ci_bytes;
use crate::text::lemma_filter_take_step;
use crate::text::starts_with_ci;
use crate::text::starts_with_ci_bytes;
use crate::text::strip_quotes;
use crate::text::spec_find;
use crate::text::find_first;
use crate::text::spec_split;
use crate::text::split_bytes;
use crate::text::starts_with;
use crate::text::starts_with_bytes;
use crate::text::trim;
use crate::text::trim_bytes;

verus! {

/// Header-field names the builder reads.
pub open spec fn h_date() -> Seq<u8> {
    seq![100u8, 97u8, 116u8, 101u8]
}

pub open spec fn h_subject() -> Seq<u8> {
    seq![115u8, 117u8, 98u8, 106u8, 101u8, 99u8, 116u8]
}

pub open spec fn h_from() -> Seq<u8> {
    seq![102u8, 114u8, 111u8, 109u8]
}

pub open spec fn h_to() -> Seq<u8> {
    seq![116u8, 111u8]
}

pub open spec fn h_cc() -> Seq<u8> {
    seq![99u8, 99u8]
}

pub open spec fn h_labels() -> Seq<u8> {
    seq![120u8, 45u8, 103u8, 109u8, 97u8, 105u8, 108u8, 45u8, 108u8, 97u8, 98u8, 101u8, 108u8,
        115u8]
}

/// Display name and address of one mailbox item: `Name <addr>` yields
/// the quoted-stripped name and the bracketed address; a bare token is
/// all address.
pub open spec fn spec_addr(raw: Seq<u8>) -> (Seq<u8>, Seq<u8>) {
    let t = trim(raw);
    match spec_find(t, 60) {
        Some(i) => match spec_find(t.skip(i + 1), 62) {
            Some(j) => (strip_quotes(trim(t.take(i))), t.subrange(i + 1, i + 1 + j)),
            None => (Seq::<u8>::empty(), t),
        },
        None => (Seq::<u8>::empty(), t),
    }
}

/// Parse one address.
pub fn parse_addr(raw: &[u8]) -> (r: MailAddress)
    ensures
        r.name@ == spec_addr(raw@).0,
        r.address@ == spec_addr(raw@).1,
{
    let t = trim_bytes(raw);
    let ts = t.as_slice();
    match find_first(ts, 60) {
        Some(i) => {
            let tl: usize = t.len();
            let after = vstd::slice::slice_subrange(ts, i + 1, tl);
            proof {
                assert(after@ =~= trim(raw@).skip(i + 1));
            }
            match find_first(after, 62) {
                Some(j) => {
                    let address = vstd::slice::slice_to_vec(
                        vstd::slice::slice_subrange(after, 0, j),
                    );
                    proof {
                        assert(address@ =~= trim(raw@).subrange(i + 1, i + 1 + j));
                    }
                    let head = vstd::slice::slice_subrange(ts, 0, i);
                    proof {
                        assert(head@ =~= trim(raw@).take(i as int));
                    }
                    let nt = trim_bytes(head);
                    let ntl: usize = nt.len();
                    let name: Vec<u8> = if ntl >= 2 && nt[0] == 34 && nt[ntl - 1] == 34 {
                        let inner = vstd::slice::slice_subrange(nt.as_slice(), 1, ntl - 1);
                        vstd::slice::slice_to_vec(inner)
                    } else {
                        nt
                    };
                    proof {
                        assert(name@ =~= strip_quotes(trim(trim(raw@).take(i as int))));
                    }
                    MailAddress { name, address }
                },
                None => MailAddress { name: Vec::new(), address: t },
            }
        },
        None => MailAddress { name: Vec::new(), address: t },
    }
}

/// The parsed address proper occurs contiguously within the raw text
/// it was parsed from.
pub proof fn lemma_addr_in_value(raw: Seq<u8>)
    ensures
        crate::text::contains_sub(raw, spec_addr(raw).1),
{
    let t = trim(raw);
    crate::text::lemma_trim_is_sub(raw);
    let a = spec_addr(raw).1;
    match spec_find(t, 60) {
        Some(i) => {
            crate::text::lemma_spec_find_props(t, 60);
            match spec_find(t.skip(i + 1), 62) {
                Some(j) => {
                    crate::text::lemma_spec_find_props(t.skip(i + 1), 62);
                    assert(crate::text::contains_sub(t, a)) by {
                        assert(t.subrange(i + 1, (i + 1) + a.len() as int) =~= a);
                    }
                },
                None => {
                    assert(crate::text::contains_sub(t, a)) by {
                        assert(t.subrange(0, 0 + a.len() as int) =~= a);
                    }
                },
            }
        },
        None => {
            assert(crate::text::contains_sub(t, a)) by {
                assert(t.subrange(0, 0 + a.len() as int) =~= a);
            }
        },
    }
    crate::text::lemma_contains_sub_trans(raw, t, a);
}

/// The address list a header value denotes: items split at commas,
/// parsed one by one, those with an empty address dropped.
pub open spec fn spec_addr_list(v: Seq<u8>) -> Seq<(Seq<u8>, Seq<u8>)> {
    spec_split(v, 44).map_values(|p: Seq<u8>| spec_addr(p)).filter(
        |a: (Seq<u8>, Seq<u8>)| a.1.len() > 0,
    )
}

/// Do the parsed addresses render the spec-level list?
pub open spec fn addrs_match(v: Seq<MailAddress>, l: Seq<(Seq<u8>, Seq<u8>)>) -> bool {
    &&& v.len() == l.len()
    &&& forall|i: int|
        0 <= i < l.len() ==> (#[trigger] v[i]).name@ == l[i].0 && v[i].address@ == l[i].1
}

/// Parse an address-list header value.
pub fn parse_addr_list(v: &[u8]) -> (r: Vec<MailAddress>)
    ensures
        addrs_match(r@, spec_addr_list(v@)),
{
    let parts = split_bytes(v, 44);
    let ghost pm = parts@.map_values(|p: Vec<u8>| p@);
    let ghost mapped = pm.map_values(|p: Seq<u8>| spec_addr(p));
    let ghost pred = |a: (Seq<u8>, Seq<u8>)| a.1.len() > 0;
    let mut r: Vec<MailAddress> = Vec::new();
    let n: usize = parts.len();
    let mut i: usize = 0;
    proof {
        assert(mapped.take(0).filter(pred) =~= Seq::<(Seq<u8>, Seq<u8>)>::empty()) by {
            reveal(Seq::filter);
            assert(mapped.take(0) =~= Seq::<(Seq<u8>, Seq<u8>)>::empty());
        }
    }
    while i < n
        invariant
            0 <= i <= n == parts@.len(),
            pm == parts@.map_values(|p: Vec<u8>| p@),
            mapped == pm.map_values(|p: Seq<u8>| spec_addr(p)),
            pred == (|a: (Seq<u8>, Seq<u8>)| a.1.len() > 0),
            addrs_match(r@, mapped.take(i as int).filter(pred)),
        decreases n - i,
    {
        let a = parse_addr(parts[i].as_slice());
        proof {
            lemma_filter_take_step(mapped, pred, i as int);
            assert(mapped[i as int] == spec_addr(pm[i as int]));
        }
        if a.address.len() > 0 {
            r.push(a);
        }
        i += 1;
    }
    proof {
        assert(mapped.take(n as int) =~= mapped);
    }
    r
}

/// The labels a header value denotes: comma-separated, trimmed,
/// empties dropped.  Duplicates within one entry are kept.
pub open spec fn spec_label_list(v: Seq<u8>) -> Seq<Seq<u8>> {
    spec_split(v, 44).map_values(|p: Seq<u8>| trim(p)).filter(|t: Seq<u8>| t.len() > 0)
}

/// Do the parsed labels render the spec-level list?
pub open spec fn labels_match(v: Seq<Vec<u8>>, l: Seq<Seq<u8>>) -> bool {
    &&& v.len() == l.len()
    &&& forall|i: int| 0 <= i < l.len() ==> (#[trigger] v[i])@ == l[i]
}

/// Parse a label-list header value.
pub fn parse_labels(v: &[u8]) -> (r: Vec<Vec<u8>>)
    ensures
        labels_match(r@, spec_label_list(v@)),
{
    let parts = split_bytes(v, 44);
    let ghost pm = parts@.map_values(|p: Vec<u8>| p@);
    let ghost mapped = pm.map_values(|p: Seq<u8>| trim(p));
    let ghost pred = |t: Seq<u8>| t.len() > 0;
    let mut r: Vec<Vec<u8>> = Vec::new();
    let n: usize = parts.len();
    let mut i: usize = 0;
    proof {
        assert(mapped.take(0).filter(pred) =~= Seq::<Seq<u8>>::empty()) by {
            reveal(Seq::filter);
            assert(mapped.take(0) =~= Seq::<Seq<u8>>::empty());
        }
    }
    while i < n
        invariant
            0 <= i <= n == parts@.len(),
            pm == parts@.map_values(|p: Vec<u8>| p@),
            mapped == pm.map_values(|p: Seq<u8>| trim(p)),
            pred == (|t: Seq<u8>| t.len() > 0),
            labels_match(r@, mapped.take(i as int).filter(pred)),
        decreases n - i,
    {
        let t = trim_bytes(parts[i].as_slice());
        proof {
            lemma_filter_take_step(mapped, pred, i as int);
            assert(mapped[i as int] == trim(pm[i as int]));
        }
        if t.len() > 0 {
            r.push(t);
        }
        i += 1;
    }
    proof {
        assert(mapped.take(n as int) =~= mapped);
    }
    r
}

/// The marker `content-disposition:`, lower case.
pub open spec fn cd_marker() -> Seq<u8> {
    seq![99u8, 111u8, 110u8, 116u8, 101u8, 110u8, 116u8, 45u8, 100u8, 105u8, 115u8, 112u8,
        111u8, 115u8, 105u8, 116u8, 105u8, 111u8, 110u8, 58u8]
}

/// The word `attachment`.
pub open spec fn attachment_marker() -> Seq<u8> {
    seq![97u8, 116u8, 116u8, 97u8, 99u8, 104u8, 109u8, 101u8, 110u8, 116u8]
}

/// Does this line announce an attachment?  The shallow structural scan
/// used at index time: a `Content-Disposition` line naming
/// `attachment`.
pub open spec fn line_flags_attachment(l: Seq<u8>) -> bool {
    starts_with_ci(l, cd_marker()) && contains_ci(l, attachment_marker())
}

/// Does some line of the message span announce an attachment?
pub open spec fn spec_has_attachments(msg: Seq<u8>) -> bool {
    exists|i: int|
        0 <= i < spec_lines(msg).len() && line_flags_attachment(#[trigger] spec_lines(msg)[i])
}

/// Shallow scan of a message span for attachments.
pub fn scan_attachments(msg: &[u8]) -> (r: bool)
    ensures
        r == spec_has_attachments(msg@),
{
    let cd: [u8; 20] = [99, 111, 110, 116, 101, 110, 116, 45, 100, 105, 115, 112, 111, 115, 105,
        116, 105, 111, 110, 58];
    let at: [u8; 10] = [97, 116, 116, 97, 99, 104, 109, 101, 110, 116];
    proof {
        assert(cd@ =~= cd_marker());
        assert(at@ =~= attachment_marker());
    }
    let lines = to_lines(msg);
    let ghost lm = lines@.map_values(|v: Vec<u8>| v@);
    let n: usize = lines.len();
    let mut i: usize = 0;
    while i < n
        invariant
            0 <= i <= n == lines@.len(),
            lm == lines@.map_values(|v: Vec<u8>| v@),
            lm == spec_lines(msg@),
            cd@ == cd_marker(),
            at@ == attachment_marker(),
            forall|j: int| 0 <= j < i ==> !line_flags_attachment(#[trigger] lm[j]),
        decreases n - i,
    {
        let l = lines[i].as_slice();
        if starts_with_ci_bytes(l, cd.as_slice()) && contains_ci_bytes(l, at.as_slice()) {
            proof {
                assert(lm[i as int] == l@);
                assert(line_flags_attachment(spec_lines(msg@)[i as int]));
            }
            return true;
        }
        i += 1;
    }
    false
}

/// Is position `p` an MBOX message boundary: the start of a `From `
/// line at the start of the file or right after an empty line?
pub open spec fn is_boundary(s: Seq<u8>, p: int) -> bool {
    &&& 0 <= p < s.len()
    &&& starts_with(s.skip(p), from_marker())
    &&& (p == 0 || (s[p - 1] == 10 && (p == 1 || s[p - 2] == 10 || (s[p - 2] == 13 && (p == 2
        || s[p - 3] == 10)))))
}

/// All boundary positions, ascending.
pub open spec fn boundaries(s: Seq<u8>) -> Seq<int> {
    Seq::new(s.len(), |i: int| i).filter(|p: int| is_boundary(s, p))
}

/// Exec boundary test at one position.
fn boundary_at(s: &[u8], p: usize) -> (r: bool)
    requires
        p < s@.len(),
    ensures
        r == is_boundary(s@, p as int),
{
    let from_mark: [u8; 5] = [70, 114, 111, 109, 32];
    proof {
        assert(from_mark@ =~= from_marker());
    }
    let n: usize = s.len();
    let tail = vstd::slice::slice_subrange(s, p, n);
    proof {
        assert(tail@ =~= s@.skip(p as int));
    }
    if !starts_with_bytes(tail, from_mark.as_slice()) {
        return false;
    }
    if p == 0 {
        return true;
    }
    if s[p - 1] != 10 {
        return false;
    }
    if p == 1 {
        return true;
    }
    if s[p - 2] == 10 {
        return true;
    }
    if s[p - 2] == 13 && (p == 2 || s[p - 3] == 10) {
        return true;
    }
    false
}

/// Find every message boundary in the file.
pub fn find_boundaries(s: &[u8]) -> (r: Vec<usize>)
    ensures
        r@.map_values(|u: usize| u as int) == boundaries(s@),
        forall|k: int| 0 <= k < r@.len() ==> (#[trigger] r@[k]) < s@.len(),
        forall|k1: int, k2: int| 0 <= k1 < k2 < r@.len() ==> r@[k1] < r@[k2],
{
    let ghost idxs = Seq::new(s@.len(), |i: int| i);
    let ghost pred = |p: int| is_boundary(s@, p);
    let mut r: Vec<usize> = Vec::new();
    let n: usize = s.len();
    let mut i: usize = 0;
    proof {
        assert(idxs.take(0).filter(pred) =~= Seq::<int>::empty()) by {
            reveal(Seq::filter);
            assert(idxs.take(0) =~= Seq::<int>::empty());
        }
    }
    while i < n
        invariant
            0 <= i <= n == s@.len(),
            idxs == Seq::new(s@.len(), |i: int| i),
            pred == (|p: int| is_boundary(s@, p)),
            r@.map_values(|u: usize| u as int) == idxs.take(i as int).filter(pred),
            forall|k: int| 0 <= k < r@.len() ==> (#[trigger] r@[k]) < i,
            forall|k1: int, k2: int| 0 <= k1 < k2 < r@.len() ==> r@[k1] < r@[k2],
        decreases n - i,
    {
        proof {
            lemma_filter_take_step(idxs, pred, i as int);
            assert(idxs[i as int] == i as int);
        }
        if boundary_at(s, i) {
            r.push(i);
            proof {
                assert(r@.map_values(|u: usize| u as int) =~= idxs.take(i as int).filter(
                    pred,
                ).push(i as int));
            }
        }
        i += 1;
    }
    proof {
        assert(idxs.take(n as int) =~= idxs);
    }
    r
}

/// The message spans of the file: each boundary up to the next one, the
/// last up to the end of the file.
pub open spec fn spec_spans(s: Seq<u8>) -> Seq<(int, int)> {
    let bs = boundaries(s);
    Seq::new(bs.len(), |k: int| (bs[k], if k + 1 < bs.len() {
        bs[k + 1]
    } else {
        s.len() as int
    }))
}

/// Does the entry hold exactly what the span's headers say?
pub open spec fn entry_matches(e: MailEntry, s: Seq<u8>, a: int, b: int, seqno: int) -> bool {
    let msg = s.subrange(a, b);
    let hdr = header_lines_of(msg);
    &&& e.sequence == seqno
    &&& e.offset == a
    &&& e.length == b - a
    &&& e.date == spec_date_of(hdr)
    &&& e.from.name@ == spec_from_of(hdr).0
    &&& e.from.address@ == spec_from_of(hdr).1
    &&& addrs_match(e.to@, spec_addr_list(field_or_empty(hdr, h_to())))
    &&& addrs_match(e.cc@, spec_addr_list(field_or_empty(hdr, h_cc())))
    &&& e.subject@ == field_or_empty(hdr, h_subject())
    &&& e.has_attachments == spec_has_attachments(msg)
    &&& labels_match(e.labels@, spec_label_list(field_or_empty(hdr, h_labels())))
}

/// The date of a header region: the parsed `Date:` field, or the
/// sentinel when the field is missing or malformed.
pub open spec fn spec_date_of(hdr: Seq<Seq<u8>>) -> MailDate {
    match header_value(hdr, h_date()) {
        Some(v) => match spec_parse_date(v) {
            Some(d) => d,
            None => MailDate::sentinel_spec(),
        },
        None => MailDate::sentinel_spec(),
    }
}

/// The sender of a header region, or empty fields when missing.
pub open spec fn spec_from_of(hdr: Seq<Seq<u8>>) -> (Seq<u8>, Seq<u8>) {
    match header_value(hdr, h_from()) {
        Some(v) => spec_addr(v),
        None => (Seq::<u8>::empty(), Seq::<u8>::empty()),
    }
}

/// Build the index entry for one message span.
pub fn build_entry(s: &[u8], a: usize, b: usize, seqno: u64) -> (e: MailEntry)
    requires
        a < b <= s@.len(),
    ensures
        entry_matches(e, s@, a as int, b as int, seqno as int),
        e.wf(s@.len() as int),
{
    let msg = vstd::slice::slice_subrange(s, a, b);
    let (hdr, _body) = split_message(msg);
    let ghost hm = hdr@.map_values(|v: Vec<u8>| v@);
    let name_date: [u8; 4] = [100, 97, 116, 101];
    let name_subject: [u8; 7] = [115, 117, 98, 106, 101, 99, 116];
    let name_from: [u8; 4] = [102, 114, 111, 109];
    let name_to: [u8; 2] = [116, 111];
    let name_cc: [u8; 2] = [99, 99];
    let name_labels: [u8; 14] = [120, 45, 103, 109, 97, 105, 108, 45, 108, 97, 98, 101, 108,
        115];
    proof {
        assert(name_date@ =~= h_date());
        assert(name_subject@ =~= h_subject());
        assert(name_from@ =~= h_from());
        assert(name_to@ =~= h_to());
        assert(name_cc@ =~= h_cc());
        assert(name_labels@ =~= h_labels());
    }
    let date: MailDate = match get_header(&hdr, name_date.as_slice()) {
        Some(v) => match crate::date::parse_date(v.as_slice()) {
            Some(d) => d,
            None => MailDate::sentinel(),
        },
        None => MailDate::sentinel(),
    };
    let from: MailAddress = match get_header(&hdr, name_from.as_slice()) {
        Some(v) => parse_addr(v.as_slice()),
        None => MailAddress { name: Vec::new(), address: Vec::new() },
    };
    let to: Vec<MailAddress> = match get_header(&hdr, name_to.as_slice()) {
        Some(v) => parse_addr_list(v.as_slice()),
        None => {
            proof {
                lemma_empty_addr_list();
            }
            Vec::new()
        },
    };
    let cc: Vec<MailAddress> = match get_header(&hdr, name_cc.as_slice()) {
        Some(v) => parse_addr_list(v.as_slice()),
        None => {
            proof {
                lemma_empty_addr_list();
            }
            Vec::new()
        },
    };
    let subject: Vec<u8> = match get_header(&hdr, name_subject.as_slice()) {
        Some(v) => v,
        None => Vec::new(),
    };
    let labels: Vec<Vec<u8>> = match get_header(&hdr, name_labels.as_slice()) {
        Some(v) => parse_labels(v.as_slice()),
        None => {
            proof {
                lemma_empty_label_list();
            }
            Vec::new()
        },
    };
    let has_attachments = scan_attachments(msg);
    MailEntry {
        sequence: seqno,
        offset: a,
        length: b - a,
        date,
        from,
        to,
        cc,
        subject,
        has_attachments,
        labels,
    }
}

/// An empty header value denotes no addresses.
pub proof fn lemma_empty_addr_list()
    ensures
        spec_addr_list(Seq::<u8>::empty()) == Seq::<(Seq<u8>, Seq<u8>)>::empty(),
{
    let pred = |a: (Seq<u8>, Seq<u8>)| a.1.len() > 0;
    let mapped = spec_split(Seq::<u8>::empty(), 44).map_values(|p: Seq<u8>| spec_addr(p));
    assert(spec_split(Seq::<u8>::empty(), 44) =~= seq![Seq::<u8>::empty()]);
    assert(mapped =~= seq![spec_addr(Seq::<u8>::empty())]);
    crate::text::lemma_filter_singleton(spec_addr(Seq::<u8>::empty()), pred);
    assert(trim(Seq::<u8>::empty()) =~= Seq::<u8>::empty());
    assert(spec_addr(Seq::<u8>::empty()).1.len() == 0);
}

/// An empty header value denotes no labels.
pub proof fn lemma_empty_label_list()
    ensures
        spec_label_list(Seq::<u8>::empty()) == Seq::<Seq<u8>>::empty(),
{
    let pred = |t: Seq<u8>| t.len() > 0;
    let mapped = spec_split(Seq::<u8>::empty(), 44).map_values(|p: Seq<u8>| trim(p));
    assert(spec_split(Seq::<u8>::empty(), 44) =~= seq![Seq::<u8>::empty()]);
    assert(mapped =~= seq![trim(Seq::<u8>::empty())]);
    crate::text::lemma_filter_singleton(trim(Seq::<u8>::empty()), pred);
    assert(trim(Seq::<u8>::empty()) =~= Seq::<u8>::empty());
}

/// The spec-level entry of one span.
pub open spec fn spec_entry_v(s: Seq<u8>, a: int, b: int, seqno: int) -> crate::model::EntryV {
    let msg = s.subrange(a, b);
    let hdr = header_lines_of(msg);
    crate::model::EntryV {
        sequence: seqno,
        offset: a,
        length: b - a,
        date: spec_date_of(hdr),
        from_name: spec_from_of(hdr).0,
        from_address: spec_from_of(hdr).1,
        to: spec_addr_list(field_or_empty(hdr, h_to())),
        cc: spec_addr_list(field_or_empty(hdr, h_cc())),
        subject: field_or_empty(hdr, h_subject()),
        has_attachments: spec_has_attachments(msg),
        labels: spec_label_list(field_or_empty(hdr, h_labels())),
    }
}

/// The spec-level index of a whole file, in file order.
pub open spec fn spec_built(s: Seq<u8>) -> Seq<crate::model::EntryV> {
    let sp = spec_spans(s);
    Seq::new(sp.len(), |k: int| spec_entry_v(s, sp[k].0, sp[k].1, k))
}

/// An entry that matches a span has exactly the span's spec-level
/// value.
pub proof fn lemma_entry_matches_v(e: MailEntry, s: Seq<u8>, a: int, b: int, seqno: int)
    requires
        entry_matches(e, s, a, b, seqno),
    ensures
        crate::model::entry_v(e) == spec_entry_v(s, a, b, seqno),
{
    assert(crate::model::entry_v(e) =~~= spec_entry_v(s, a, b, seqno));
}

/// Do the entries describe exactly the spans of the file, in file
/// order?
pub open spec fn index_matches(es: Seq<MailEntry>, s: Seq<u8>) -> bool {
    let sp = spec_spans(s);
    &&& es.len() == sp.len()
    &&& forall|k: int|
        0 <= k < sp.len() ==> entry_matches(#[trigger] es[k], s, sp[k].0, sp[k].1, k)
}

/// Build the whole index: one entry per message span, in file order,
/// with `sequence` equal to the build position.
pub fn build_index(s: &[u8]) -> (r: Vec<MailEntry>)
    ensures
        index_matches(r@, s@),
        forall|k: int| 0 <= k < r@.len() ==> (#[trigger] r@[k]).wf(s@.len() as int),
        r@.map_values(|e: MailEntry| crate::model::entry_v(e)) == spec_built(s@),
{
    let bs = find_boundaries(s);
    let ghost bsm = bs@.map_values(|u: usize| u as int);
    let n: usize = bs.len();
    let total: usize = s.len();
    let mut r: Vec<MailEntry> = Vec::new();
    let mut k: usize = 0;
    while k < n
        invariant
            0 <= k <= n == bs@.len(),
            total == s@.len(),
            bsm == bs@.map_values(|u: usize| u as int),
            bsm == boundaries(s@),
            forall|j: int| 0 <= j < n ==> (#[trigger] bs@[j]) < total,
            forall|j1: int, j2: int| 0 <= j1 < j2 < n ==> bs@[j1] < bs@[j2],
            r@.len() == k,
            forall|j: int|
                0 <= j < k ==> entry_matches(
                    #[trigger] r@[j],
                    s@,
                    spec_spans(s@)[j].0,
                    spec_spans(s@)[j].1,
                    j,
                ),
            forall|j: int| 0 <= j < k ==> (#[trigger] r@[j]).wf(s@.len() as int),
        decreases n - k,
    {
        let a: usize = bs[k];
        let b: usize = if k + 1 < n {
            bs[k + 1]
        } else {
            total
        };
        assert(a < b <= total);
        let e = build_entry(s, a, b, k as u64);
        proof {
            assert(spec_spans(s@)[k as int].0 == a as int);
            assert(spec_spans(s@)[k as int].1 == b as int);
        }
        r.push(e);
        k += 1;
    }
    proof {
        assert forall|j: int| 0 <= j < r@.len() implies crate::model::entry_v(#[trigger] r@[j])
            == spec_built(s@)[j] by {
            lemma_entry_matches_v(r@[j], s@, spec_spans(s@)[j].0, spec_spans(s@)[j].1, j);
        }
        assert(r@.map_values(|e: MailEntry| crate::model::entry_v(e)) =~= spec_built(s@));
    }
    r
}

} // verus!
