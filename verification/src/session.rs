//! The mailbox session: the one state machine callers talk to.
//!
//! A session is `Closed` until a successful `open` and `Closed` again
//! after `close`.  `open` builds the index over the file bytes it is
//! given, sorts it by date newest first — keeping file order among
//! equal dates — renumbers the entries densely, and only then replaces
//! the whole visible state, so no caller ever observes a half-built
//! index.  Browsing, search and fetches all address messages by the
//! dense post-sort `sequence`.
//!
//! Reading the file from disk belongs to the caller: `open` receives
//! the path only as a name to remember, together with the bytes read
//! from it.

use vstd::prelude::*;
use vstd::string::StringExecFns;
use vstd::string::StringSliceAdditionalSpecFns;

use crate::error::AppError;
use crate::index::build_index;
use crate::index::spec_built;
use crate::labels::label_counts_of;
use crate::labels::spec_label_counts;
use crate::mime::msg_parts;
use crate::mime::part_content;
use crate::mime::spec_attachments;
use crate::model::EmailBody;
use crate::model::EmailEntry;
use crate::model::EntryV;
use crate::model::LabelCount;
use crate::model::MailEntry;
use crate::model::MboxStats;
use crate::model::SearchResults;
use crate::model::entry_dto_ok;
use crate::model::entry_to_dto;
use crate::model::entry_v;
use crate::order::entry_key;
use crate::order::lemma_sort_by_key_contains;
use crate::order::lemma_sort_by_key_sorted;
use crate::order::sort_by_key_desc;
use crate::order::sort_entries_desc;
use crate::order::sorted_desc_by;
use crate::query::TermV;
use crate::query::spec_parse_query;
use crate::search::matching_indices;
use crate::store::MboxStore;
use crate::store::body_dto_ok;
use crate::store::body_to_dto;
use crate::text::dec_str;
use crate::text::eq_ignore_case;
use crate::text::eq_ignore_case_seq;
use crate::text::lemma_dec_str_ascii;
use crate::text::lemma_filter_take_step;
use crate::text::lossy_utf8;
use crate::text::push_dec;

verus! {

/// The entries an open over `d` ends with: the built index sorted by
/// date descending — file order kept among equal dates — and densely
/// renumbered.
pub open spec fn spec_open_entries(d: Seq<u8>) -> Seq<EntryV> {
    renumber_v(sort_by_key_desc(entry_key(), spec_built(d)))
}

/// The sequence fields replaced by each entry's position.
pub open spec fn renumber_v(s: Seq<EntryV>) -> Seq<EntryV> {
    Seq::new(s.len(), |i: int| EntryV { sequence: i, ..s[i] })
}

/// How many entries carry an attachment.
pub open spec fn count_atts(es: Seq<EntryV>) -> int
    decreases es.len(),
{
    if es.len() == 0 {
        0
    } else {
        count_atts(es.drop_last()) + if es.last().has_attachments {
            1int
        } else {
            0int
        }
    }
}

/// Does the entry carry `lb` as a label, compared without case?
pub open spec fn has_label_ci(ev: EntryV, lb: Seq<u8>) -> bool {
    exists|i: int| 0 <= i < ev.labels.len() && eq_ignore_case_seq(#[trigger] ev.labels[i], lb)
}

/// The label table as callers see it.
pub open spec fn labels_view(v: Seq<LabelCount>) -> Seq<(Seq<char>, int)> {
    v.map_values(|lc: LabelCount| (lc.label@, lc.count as int))
}

/// The message text for an out-of-range index.
pub open spec fn index_err_chars(i: int) -> Seq<char> {
    "Invalid email index: "@ + dec_str(i).map_values(|b: u8| b as char)
}

/// The message text for an out-of-range attachment index.
pub open spec fn attachment_err_chars(i: int) -> Seq<char> {
    "Invalid attachment index: "@ + dec_str(i).map_values(|b: u8| b as char)
}

/// The mailbox session state: the open file's remembered path, its
/// index, and the store over its bytes; all three absent when closed.
pub struct MboxService {
    mbox_path: Option<String>,
    entries: Vec<MailEntry>,
    store: Option<MboxStore>,
}

impl MboxService {
    #[verifier::type_invariant]
    spec fn inv(&self) -> bool {
        &&& (self.store is Some <==> self.mbox_path is Some)
        &&& (self.store is None ==> self.entries@.len() == 0)
        &&& (self.store matches Some(st) ==> self.entries@.map_values(|e: MailEntry| entry_v(e))
            == spec_open_entries(st.data@))
        &&& forall|k: int|
            0 <= k < self.entries@.len() ==> {
                let e = #[trigger] self.entries@[k];
                &&& e.sequence == k
                &&& e.date.wf()
                &&& (self.store matches Some(st) ==> e.offset + e.length <= st.data@.len())
            }
        &&& sorted_desc_by(entry_key(), self.entries@.map_values(|e: MailEntry| entry_v(e)))
    }

    /// Is a mailbox open?
    pub closed spec fn is_open(&self) -> bool {
        self.store is Some
    }

    /// The index as spec-level entries, in presented order.
    pub closed spec fn entries_v(&self) -> Seq<EntryV> {
        self.entries@.map_values(|e: MailEntry| entry_v(e))
    }

    /// The remembered path of the open mailbox.
    pub closed spec fn path_chars(&self) -> Option<Seq<char>> {
        match self.mbox_path {
            Some(p) => Some(p@),
            None => None,
        }
    }

    /// The open mailbox's bytes; empty when closed.
    pub closed spec fn file_bytes(&self) -> Seq<u8> {
        match self.store {
            Some(st) => st.data@,
            None => Seq::<u8>::empty(),
        }
    }

    /// The byte span of entry `i` within the open file.
    pub open spec fn msg_span(&self, i: int) -> Seq<u8> {
        let ev = self.entries_v()[i];
        self.file_bytes().subrange(ev.offset, ev.offset + ev.length)
    }

    /// A fresh, closed session.
    pub fn new() -> (r: Self)
        ensures
            !r.is_open(),
            r.entries_v().len() == 0,
            r.path_chars() is None,
    {
        let r = MboxService { mbox_path: None, entries: Vec::new(), store: None };
        proof {
            assert(r.entries@.map_values(|e: MailEntry| entry_v(e)) =~= Seq::<EntryV>::empty());
        }
        r
    }

    /// The remembered path of the open mailbox; `None` when closed.
    pub fn mbox_path(&self) -> (r: &Option<String>)
        ensures
            match r {
                Some(p) => self.path_chars() == Some(p@) && self.is_open(),
                None => self.path_chars() is None && !self.is_open(),
            },
    {
        proof {
            use_type_invariant(self);
        }
        &self.mbox_path
    }

    /// The index entries, in presented order.
    pub fn entries(&self) -> (r: &Vec<MailEntry>)
        ensures
            r@.map_values(|e: MailEntry| entry_v(e)) == self.entries_v(),
    {
        &self.entries
    }

    /// The store over the open mailbox's bytes; `None` when closed.
    pub fn store(&self) -> (r: &Option<MboxStore>)
        ensures
            (r is Some) == self.is_open(),
            match r {
                Some(st) => st.data@ == self.file_bytes(),
                None => true,
            },
    {
        &self.store
    }

    /// How many messages the open mailbox holds; zero when closed.
    pub fn get_email_count(&self) -> (r: usize)
        ensures
            r == self.entries_v().len(),
            !self.is_open() ==> r == 0,
    {
        proof {
            use_type_invariant(self);
        }
        self.entries.len()
    }

    /// Discard the open mailbox, if any.  Valid in every state and
    /// idempotent: the session is closed and empty afterwards, however
    /// often it is called.
    pub fn close(&mut self)
        ensures
            !final(self).is_open(),
            final(self).entries_v().len() == 0,
            final(self).path_chars() is None,
    {
        *self = MboxService { mbox_path: None, entries: Vec::new(), store: None };
        proof {
            assert(self.entries@.map_values(|e: MailEntry| entry_v(e))
                =~= Seq::<EntryV>::empty());
        }
    }

    /// Open a mailbox: build the index over `data`, order it newest
    /// first, renumber it densely, and replace all visible state at
    /// once.  With the bytes already in hand this cannot fail; the
    /// returned statistics describe exactly the new index.
    pub fn open(&mut self, path: &str, data: Vec<u8>) -> (r: Result<MboxStats, AppError>)
        ensures
            r is Ok,
            final(self).is_open(),
            final(self).path_chars() == Some(path@),
            final(self).file_bytes() == data@,
            final(self).entries_v() == spec_open_entries(data@),
            forall|i: int|
                0 <= i < final(self).entries_v().len() ==> (#[trigger] final(self).entries_v()[i])
                    .sequence == i,
            sorted_desc_by(entry_key(), final(self).entries_v()),
            (r matches Ok(st) && {
                &&& st.total_messages == spec_open_entries(data@).len()
                &&& st.total_with_attachments == count_atts(spec_open_entries(data@))
                &&& labels_view(st.labels@) == spec_label_counts(spec_open_entries(data@))
                    .map_values(|p: (Seq<u8>, int)| (lossy_utf8(p.0), p.1))
            }),
    {
        let built = build_index(data.as_slice());
        let ghost built_v = built@.map_values(|e: MailEntry| entry_v(e));
        proof {
            assert forall|j: int| 0 <= j < built_v.len() implies (#[trigger] built_v[j]).wf(
                data@.len() as int,
            ) by {
                assert(built_v[j] == entry_v(built@[j]));
                assert(built@[j].wf(data@.len() as int));
            }
        }
        let sorted = sort_entries_desc(built);
        let ghost sorted_v = sorted@.map_values(|e: MailEntry| entry_v(e));
        proof {
            lemma_sort_by_key_sorted(entry_key(), built_v);
            assert forall|k: int| 0 <= k < sorted_v.len() implies (#[trigger] sorted_v[k]).wf(
                data@.len() as int,
            ) by {
                lemma_sort_by_key_contains(entry_key(), built_v, k);
                let x = sorted_v[k];
                let j = choose|j: int| 0 <= j < built_v.len() && built_v[j] == x;
            }
        }
        let renum = renumber_entries(sorted);
        let ghost renum_v = renum@.map_values(|e: MailEntry| entry_v(e));
        proof {
            assert(renum_v == spec_open_entries(data@));
            assert forall|k: int| 0 <= k < renum_v.len() implies (#[trigger] renum_v[k]).wf(
                data@.len() as int,
            ) by {
                assert(renum_v[k] == EntryV { sequence: k, ..sorted_v[k] });
            }
            assert(sorted_desc_by(entry_key(), renum_v)) by {
                assert forall|i: int, j: int|
                    0 <= i < j < renum_v.len() implies entry_key()(renum_v[i]) >= entry_key()(
                    renum_v[j],
                ) by {
                    assert(renum_v[i].date == sorted_v[i].date);
                    assert(renum_v[j].date == sorted_v[j].date);
                    assert(entry_key()(sorted_v[i]) >= entry_key()(sorted_v[j]));
                }
            }
        }
        let total_messages: usize = renum.len();
        let total_with_attachments: usize = count_attachments(&renum);
        let labels = label_counts_of(&renum);
        let store = MboxStore::new(data);
        let p = String::from_str(path);
        proof {
            assert forall|k: int| 0 <= k < renum@.len() implies {
                let e = #[trigger] renum@[k];
                &&& e.sequence == k
                &&& e.date.wf()
                &&& e.offset + e.length <= store.data@.len()
            } by {
                assert(entry_v(renum@[k]) == renum_v[k]);
                assert(renum_v[k].wf(data@.len() as int));
                assert(renum_v[k].sequence == k);
            }
            assert(renum@.map_values(|e: MailEntry| entry_v(e)) == spec_open_entries(
                store.data@,
            ));
        }
        *self = MboxService { mbox_path: Some(p), entries: renum, store: Some(store) };
        Ok(MboxStats { total_messages, total_with_attachments, labels })
    }

    /// The half-open page `[offset, offset+limit)` of the index, as
    /// boundary records.  An offset at or past the end yields an empty
    /// page, never an error; the call fails only on a closed session.
    pub fn get_emails(&self, offset: usize, limit: usize) -> (r: Result<Vec<EmailEntry>, AppError>)
        ensures
            match r {
                Ok(v) => self.is_open() && ({
                    let es = self.entries_v();
                    let start = if offset as int <= es.len() {
                        offset as int
                    } else {
                        es.len() as int
                    };
                    let cnt = if limit as int <= es.len() - start {
                        limit as int
                    } else {
                        es.len() - start
                    };
                    &&& v@.len() == cnt
                    &&& forall|j: int|
                        0 <= j < cnt ==> entry_dto_ok(#[trigger] v@[j], es[start + j])
                }),
                Err(e) => !self.is_open() && (e matches AppError::Validation(m) && m@
                    == "No MBOX file is currently open"@),
            },
    {
        proof {
            use_type_invariant(self);
        }
        if self.store.is_none() {
            return Err(AppError::Validation(String::from_str("No MBOX file is currently open")));
        }
        let n: usize = self.entries.len();
        let start: usize = if offset <= n {
            offset
        } else {
            n
        };
        let rem: usize = n - start;
        let cnt: usize = if limit <= rem {
            limit
        } else {
            rem
        };
        let mut v: Vec<EmailEntry> = Vec::new();
        let mut j: usize = 0;
        while j < cnt
            invariant
                0 <= j <= cnt,
                start + cnt <= n == self.entries@.len(),
                forall|k: int|
                    0 <= k < n ==> (#[trigger] self.entries@[k]).date.wf()
                        && self.entries@[k].sequence == k,
                v@.len() == j,
                forall|q: int|
                    0 <= q < j ==> entry_dto_ok(#[trigger] v@[q], entry_v(
                        self.entries@[start + q],
                    )),
            decreases cnt - j,
        {
            v.push(entry_to_dto(&self.entries[start + j]));
            j += 1;
        }
        proof {
            assert forall|q: int| 0 <= q < cnt implies entry_dto_ok(
                #[trigger] v@[q],
                self.entries_v()[start + q],
            ) by {
                assert(self.entries_v()[start + q] == entry_v(self.entries@[start + q]));
            }
        }
        Ok(v)
    }

    /// The full body of message `sequence`.  Fails with a validation
    /// error on a closed session or an index at or past the end;
    /// succeeds on every message of an open mailbox.
    pub fn get_email_body(&self, index: usize) -> (r: Result<EmailBody, AppError>)
        ensures
            match r {
                Ok(b) => self.is_open() && index < self.entries_v().len() && body_dto_ok(
                    b,
                    self.msg_span(index as int),
                ),
                Err(e) => (e matches AppError::Validation(m) && if !self.is_open() {
                    m@ == "No MBOX file is currently open"@
                } else {
                    index >= self.entries_v().len() && m@ == index_err_chars(index as int)
                }),
            },
    {
        proof {
            use_type_invariant(self);
        }
        match &self.store {
            None => Err(
                AppError::Validation(String::from_str("No MBOX file is currently open")),
            ),
            Some(st) => {
                if index >= self.entries.len() {
                    return Err(AppError::Validation(index_err_message(index)));
                }
                let entry = &self.entries[index];
                match st.get_message(entry) {
                    Ok(mb) => {
                        proof {
                            assert(st.span_of(*entry) == self.msg_span(index as int));
                        }
                        Ok(body_to_dto(&mb, Ghost(st.span_of(*entry))))
                    },
                    Err(e) => {
                        proof {
                            assert(false);
                        }
                        Err(e)
                    },
                }
            },
        }
    }

    /// The aggregated label table: each label with the number of
    /// entries carrying it, sorted by count descending, ties in order
    /// of first occurrence.  Empty — not an error — when closed.
    pub fn get_labels(&self) -> (r: Vec<LabelCount>)
        ensures
            labels_view(r@) == spec_label_counts(self.entries_v()).map_values(
                |p: (Seq<u8>, int)| (lossy_utf8(p.0), p.1),
            ),
    {
        let r = label_counts_of(&self.entries);
        proof {
            assert(labels_view(r@) =~= spec_label_counts(self.entries_v()).map_values(
                |p: (Seq<u8>, int)| (lossy_utf8(p.0), p.1),
            ));
        }
        r
    }

    /// Every entry carrying `label` (exact match up to ASCII case), in
    /// index order.  No match is an empty result, not an error; only a
    /// closed session fails.
    pub fn get_emails_by_label(&self, label: &str) -> (r: Result<Vec<EmailEntry>, AppError>)
        ensures
            match r {
                Ok(v) => self.is_open() && ({
                    let es = self.entries_v();
                    let ms = Seq::new(es.len(), |i: int| i).filter(
                        |i: int| has_label_ci(es[i], label.spec_bytes()),
                    );
                    &&& v@.len() == ms.len()
                    &&& forall|j: int|
                        0 <= j < ms.len() ==> entry_dto_ok(#[trigger] v@[j], es[ms[j]])
                }),
                Err(e) => !self.is_open() && (e matches AppError::Validation(m) && m@
                    == "No MBOX file is currently open"@),
            },
    {
        proof {
            use_type_invariant(self);
        }
        if self.store.is_none() {
            return Err(AppError::Validation(String::from_str("No MBOX file is currently open")));
        }
        let lb: &[u8] = label.as_bytes();
        let ghost es = self.entries_v();
        let ghost idxs = Seq::new(es.len(), |i: int| i);
        let ghost pred = |i: int| has_label_ci(es[i], label.spec_bytes());
        let n: usize = self.entries.len();
        let mut v: Vec<EmailEntry> = Vec::new();
        let mut i: usize = 0;
        proof {
            assert(idxs.take(0).filter(pred) =~= Seq::<int>::empty()) by {
                reveal(Seq::filter);
                assert(idxs.take(0) =~= Seq::<int>::empty());
            }
        }
        while i < n
            invariant
                0 <= i <= n == self.entries@.len(),
                lb@ == label.spec_bytes(),
                es == self.entries_v(),
                forall|k: int|
                    0 <= k < n ==> (#[trigger] self.entries@[k]).date.wf()
                        && self.entries@[k].sequence == k,
                idxs == Seq::new(es.len(), |i: int| i),
                pred == (|i: int| has_label_ci(es[i], label.spec_bytes())),
                v@.len() == idxs.take(i as int).filter(pred).len(),
                forall|j: int|
                    0 <= j < v@.len() ==> entry_dto_ok(#[trigger] v@[j], es[idxs.take(
                        i as int,
                    ).filter(pred)[j]]),
            decreases n - i,
        {
            proof {
                lemma_filter_take_step(idxs, pred, i as int);
                assert(idxs[i as int] == i as int);
            }
            if has_label(&self.entries[i], lb) {
                proof {
                    assert(entry_v(self.entries@[i as int]) == es[i as int]);
                }
                v.push(entry_to_dto(&self.entries[i]));
            }
            i += 1;
        }
        proof {
            assert(idxs.take(n as int) =~= idxs);
        }
        Ok(v)
    }

    /// The raw bytes of one attachment: the body of message `index` is
    /// re-parsed and its `attachment_index`-th attachment decoded.
    /// The returned length always equals the size that the parsed
    /// body reported for that attachment.
    pub fn get_attachment(&self, index: usize, attachment_index: usize) -> (r: Result<
        Vec<u8>,
        AppError,
    >)
        ensures
            match r {
                Ok(bytes) => self.is_open() && index < self.entries_v().len() && ({
                    let atts = spec_attachments(self.msg_span(index as int));
                    &&& attachment_index < atts.len()
                    &&& bytes@ == part_content(
                        msg_parts(self.msg_span(index as int))[atts[attachment_index as int].3],
                    )
                    &&& bytes@.len() == atts[attachment_index as int].2
                }),
                Err(e) => (e matches AppError::Validation(m) && if !self.is_open() {
                    m@ == "No MBOX file is currently open"@
                } else if index >= self.entries_v().len() {
                    m@ == index_err_chars(index as int)
                } else {
                    attachment_index >= spec_attachments(self.msg_span(index as int)).len()
                        && m@ == attachment_err_chars(attachment_index as int)
                }),
            },
    {
        proof {
            use_type_invariant(self);
        }
        match &self.store {
            None => Err(
                AppError::Validation(String::from_str("No MBOX file is currently open")),
            ),
            Some(st) => {
                if index >= self.entries.len() {
                    return Err(AppError::Validation(index_err_message(index)));
                }
                let entry = &self.entries[index];
                let ghost span = st.span_of(*entry);
                proof {
                    assert(span == self.msg_span(index as int));
                }
                match st.get_message(entry) {
                    Ok(mb) => {
                        if attachment_index >= mb.attachments.len() {
                            return Err(
                                AppError::Validation(attachment_err_message(attachment_index)),
                            );
                        }
                        let meta = &mb.attachments[attachment_index];
                        proof {
                            assert(*meta == mb.attachments@[attachment_index as int]);
                            crate::mime::lemma_atts_from(msg_parts(span), 0);
                            let a = spec_attachments(span)[attachment_index as int];
                            assert(meta.part_index == a.3);
                            assert(0 <= a.3 < msg_parts(span).len());
                            if crate::mime::msg_boundary(span) is None {
                                assert(msg_parts(span).len() == 0);
                            }
                        }
                        match st.get_attachment(entry, meta) {
                            Ok(bytes) => {
                                proof {
                                    let a = spec_attachments(span)[attachment_index as int];
                                    assert(bytes@ == part_content(msg_parts(span)[a.3]));
                                    assert(bytes@.len() == a.2);
                                }
                                Ok(bytes)
                            },
                            Err(e) => {
                                proof {
                                    assert(false);
                                }
                                Err(e)
                            },
                        }
                    },
                    Err(e) => {
                        proof {
                            assert(false);
                        }
                        Err(e)
                    },
                }
            },
        }
    }

    /// Run a query against the open mailbox.  The matches are found in
    /// index order; `total_count` counts all of them, and only then is
    /// the returned page cut to `limit` (500 when absent).  A syntax
    /// error in the query fails the whole call; a closed session is a
    /// validation error.
    pub fn search(&self, query: &str, limit: Option<usize>) -> (r: Result<
        SearchResults,
        AppError,
    >)
        ensures
            match r {
                Ok(sr) => self.is_open() && (spec_parse_query(query.spec_bytes()) matches Some(
                    terms,
                ) && self.search_ok(terms, limit, sr)),
                Err(e) => if !self.is_open() {
                    e matches AppError::Validation(m) && m@ == "No MBOX file is currently open"@
                } else {
                    spec_parse_query(query.spec_bytes()) is None && (e
                        matches AppError::MboxShell(m) && m@ == "invalid search query"@)
                },
            },
    {
        proof {
            use_type_invariant(self);
        }
        match &self.store {
            None => Err(
                AppError::Validation(String::from_str("No MBOX file is currently open")),
            ),
            Some(st) => {
                let (q, idxs) = match crate::search::execute(
                    st.data.as_slice(),
                    &self.entries,
                    query.as_bytes(),
                ) {
                    Ok(qi) => qi,
                    Err(e) => {
                        return Err(e);
                    },
                };
                let ghost terms = crate::query::query_v(q);
                let ghost mi = matching_indices(self.file_bytes(), self.entries_v(), terms);
                proof {
                    assert(idxs@.map_values(|u: usize| u as int) == mi);
                }
                let total_count: usize = idxs.len();
                let max_results: usize = match limit {
                    Some(l) => l,
                    None => 500,
                };
                let cnt: usize = if max_results <= total_count {
                    max_results
                } else {
                    total_count
                };
                let mut emails: Vec<EmailEntry> = Vec::new();
                let mut j: usize = 0;
                while j < cnt
                    invariant
                        0 <= j <= cnt <= idxs@.len(),
                        mi == idxs@.map_values(|u: usize| u as int),
                        forall|k: int| 0 <= k < idxs@.len() ==> (#[trigger] idxs@[k])
                            < self.entries@.len(),
                        forall|k: int|
                            0 <= k < self.entries@.len() ==> (#[trigger] self.entries@[k]).date
                                .wf() && self.entries@[k].sequence == k,
                        emails@.len() == j,
                        forall|k: int|
                            0 <= k < j ==> entry_dto_ok(#[trigger] emails@[k], entry_v(
                                self.entries@[mi[k]],
                            )),
                    decreases cnt - j,
                {
                    let i: usize = idxs[j];
                    proof {
                        assert(mi[j as int] == i as int);
                    }
                    emails.push(entry_to_dto(&self.entries[i]));
                    j += 1;
                }
                proof {
                    assert forall|k: int| 0 <= k < cnt implies entry_dto_ok(
                        #[trigger] emails@[k],
                        self.entries_v()[mi[k]],
                    ) by {
                        assert(self.entries_v()[mi[k]] == entry_v(self.entries@[mi[k]]));
                    }
                }
                Ok(SearchResults { emails, total_count })
            },
        }
    }

    /// What a successful search reports: the untruncated match count
    /// and the first `limit` matches as boundary records.
    pub open spec fn search_ok(
        &self,
        terms: Seq<TermV>,
        limit: Option<usize>,
        sr: SearchResults,
    ) -> bool {
        let mi = matching_indices(self.file_bytes(), self.entries_v(), terms);
        let max = match limit {
            Some(l) => l as int,
            None => 500int,
        };
        &&& sr.total_count == mi.len()
        &&& sr.emails@.len() == if max <= mi.len() {
            max
        } else {
            mi.len() as int
        }
        &&& forall|j: int|
            0 <= j < sr.emails@.len() ==> entry_dto_ok(
                #[trigger] sr.emails@[j],
                self.entries_v()[mi[j]],
            )
    }

    /// The match count of a search depends on the session and the
    /// query alone, never on the limit: two successful searches for
    /// the same terms report the same `total_count`, whatever their
    /// limits; only the returned pages differ in length.
    pub proof fn lemma_search_total_ignores_limit(
        &self,
        terms: Seq<TermV>,
        l1: Option<usize>,
        l2: Option<usize>,
        r1: SearchResults,
        r2: SearchResults,
    )
        requires
            self.search_ok(terms, l1, r1),
            self.search_ok(terms, l2, r2),
        ensures
            r1.total_count == r2.total_count,
    {
    }

    /// The label table is a function of the index alone: the table in
    /// `open`'s statistics and any later `get_labels` result agree.
    pub proof fn lemma_label_table_is_state_function(
        &self,
        a: Seq<LabelCount>,
        b: Seq<LabelCount>,
    )
        requires
            labels_view(a) == spec_label_counts(self.entries_v()).map_values(
                |p: (Seq<u8>, int)| (lossy_utf8(p.0), p.1),
            ),
            labels_view(b) == spec_label_counts(self.entries_v()).map_values(
                |p: (Seq<u8>, int)| (lossy_utf8(p.0), p.1),
            ),
        ensures
            labels_view(a) == labels_view(b),
    {
    }

    /// Each entry's metadata was read from the same header region that
    /// a body fetch for it renders: its subject and sender are the
    /// header fields of its own byte span, and the raw header text of
    /// that span is those header lines joined.  The premise is exactly
    /// what `open` establishes for the session it returns.
    pub proof fn lemma_round_trip_metadata(&self, i: int)
        requires
            self.is_open(),
            self.entries_v() == spec_open_entries(self.file_bytes()),
            0 <= i < self.entries_v().len(),
        ensures
            ({
                let ev = self.entries_v()[i];
                let span = self.msg_span(i);
                let hdr = crate::headers::header_lines_of(span);
                &&& ev.subject == crate::headers::field_or_empty(hdr, crate::index::h_subject())
                &&& ev.from_name == crate::index::spec_from_of(hdr).0
                &&& ev.from_address == crate::index::spec_from_of(hdr).1
                &&& crate::mime::spec_raw_headers(span) == crate::headers::join_nl(hdr)
            }),
    {
        let d = self.file_bytes();
        let es = self.entries_v();
        assert(es == spec_open_entries(d));
        let sorted = sort_by_key_desc(entry_key(), spec_built(d));
        assert(es[i] == EntryV { sequence: i, ..sorted[i] });
        lemma_sort_by_key_contains(entry_key(), spec_built(d), i);
        let j = choose|j: int| 0 <= j < spec_built(d).len() && spec_built(d)[j] == sorted[i];
        let sp = crate::index::spec_spans(d);
        assert(spec_built(d)[j] == crate::index::spec_entry_v(d, sp[j].0, sp[j].1, j));
        assert(self.msg_span(i) == d.subrange(sp[j].0, sp[j].1));
    }

    /// When a message's subject stands on one header line, the raw
    /// header text a body fetch renders for it contains the recorded
    /// subject verbatim.  A folded subject is rejoined with single
    /// spaces and need not appear byte for byte; the premise leaves
    /// that case out.
    pub proof fn lemma_raw_headers_contain_subject(&self, i: int)
        requires
            self.is_open(),
            self.entries_v() == spec_open_entries(self.file_bytes()),
            0 <= i < self.entries_v().len(),
            ({
                let hdr = crate::headers::header_lines_of(self.msg_span(i));
                let f = crate::headers::spec_find_field(hdr, crate::index::h_subject());
                f is Some && !(f->Some_0 + 1 < hdr.len() && crate::headers::is_cont(
                    hdr[f->Some_0 + 1],
                ))
            }),
        ensures
            crate::text::contains_sub(
                crate::mime::spec_raw_headers(self.msg_span(i)),
                self.entries_v()[i].subject,
            ),
    {
        self.lemma_round_trip_metadata(i);
        let hdr = crate::headers::header_lines_of(self.msg_span(i));
        crate::headers::lemma_plain_field_value_in_join(hdr, crate::index::h_subject());
    }

    /// The raw header text a body fetch renders always contains the
    /// recorded sender address verbatim: the address was cut from the
    /// `From` line's own text.
    pub proof fn lemma_raw_headers_contain_from_address(&self, i: int)
        requires
            self.is_open(),
            self.entries_v() == spec_open_entries(self.file_bytes()),
            0 <= i < self.entries_v().len(),
            ({
                let hdr = crate::headers::header_lines_of(self.msg_span(i));
                let f = crate::headers::spec_find_field(hdr, crate::index::h_from());
                f is Some && !(f->Some_0 + 1 < hdr.len() && crate::headers::is_cont(
                    hdr[f->Some_0 + 1],
                ))
            }),
        ensures
            crate::text::contains_sub(
                crate::mime::spec_raw_headers(self.msg_span(i)),
                self.entries_v()[i].from_address,
            ),
    {
        self.lemma_round_trip_metadata(i);
        let hdr = crate::headers::header_lines_of(self.msg_span(i));
        crate::headers::lemma_plain_field_value_in_join(hdr, crate::index::h_from());
        let v = crate::headers::header_value(hdr, crate::index::h_from())->Some_0;
        crate::index::lemma_addr_in_value(v);
        crate::text::lemma_contains_sub_trans(
            crate::mime::spec_raw_headers(self.msg_span(i)),
            v,
            self.entries_v()[i].from_address,
        );
    }
}

impl Default for MboxService {
    /// Same as [`MboxService::new`]: a closed, empty session.
    fn default() -> (r: Self)
        ensures
            !r.is_open(),
            r.entries_v().len() == 0,
            r.path_chars() is None,
    {
        MboxService::new()
    }
}

/// Replace each entry's sequence number with its position.
fn renumber_entries(v: Vec<MailEntry>) -> (r: Vec<MailEntry>)
    requires
        forall|k: int| 0 <= k < v@.len() ==> (#[trigger] v@[k]).date.wf(),
    ensures
        r@.map_values(|e: MailEntry| entry_v(e)) == renumber_v(
            v@.map_values(|e: MailEntry| entry_v(e)),
        ),
        forall|k: int| 0 <= k < r@.len() ==> (#[trigger] r@[k]).date.wf(),
        forall|k: int| 0 <= k < r@.len() ==> (#[trigger] r@[k]).sequence == k,
{
    let ghost orig = v@.map_values(|e: MailEntry| entry_v(e));
    let total: usize = v.len();
    let mut rest = v;
    let mut out: Vec<MailEntry> = Vec::new();
    let mut k: usize = 0;
    while rest.len() > 0
        invariant
            k + rest@.len() == total == orig.len(),
            k == out@.len(),
            forall|j: int| 0 <= j < rest@.len() ==> entry_v(#[trigger] rest@[j]) == orig[k + j],
            forall|j: int| 0 <= j < rest@.len() ==> (#[trigger] rest@[j]).date.wf(),
            forall|j: int| 0 <= j < k ==> (#[trigger] out@[j]).date.wf(),
            forall|j: int| 0 <= j < k ==> (#[trigger] out@[j]).sequence == j,
            forall|j: int|
                0 <= j < k ==> entry_v(#[trigger] out@[j]) == (EntryV {
                    sequence: j,
                    ..orig[j]
                }),
        decreases rest@.len(),
    {
        let ghost prev = rest@;
        let e = rest.remove(0);
        proof {
            assert(entry_v(e) == orig[k as int]);
            assert(rest@ =~= prev.drop_first());
        }
        let e2 = MailEntry { sequence: k as u64, ..e };
        proof {
            assert(entry_v(e2) =~~= (EntryV { sequence: k as int, ..orig[k as int] }));
        }
        out.push(e2);
        k += 1;
    }
    proof {
        assert(out@.map_values(|e: MailEntry| entry_v(e)) =~= renumber_v(orig));
    }
    out
}

/// Count the entries that carry an attachment.
fn count_attachments(v: &Vec<MailEntry>) -> (r: usize)
    ensures
        r == count_atts(v@.map_values(|e: MailEntry| entry_v(e))),
{
    let ghost evs = v@.map_values(|e: MailEntry| entry_v(e));
    let n: usize = v.len();
    let mut count: usize = 0;
    let mut k: usize = 0;
    proof {
        assert(evs.take(0) =~= Seq::<EntryV>::empty());
    }
    while k < n
        invariant
            0 <= k <= n == v@.len(),
            evs == v@.map_values(|e: MailEntry| entry_v(e)),
            count <= k,
            count == count_atts(evs.take(k as int)),
        decreases n - k,
    {
        proof {
            assert(evs.take(k as int + 1).drop_last() =~= evs.take(k as int));
            assert(evs.take(k as int + 1).last() == evs[k as int]);
            assert(evs[k as int] == entry_v(v@[k as int]));
        }
        if v[k].has_attachments {
            count += 1;
        }
        k += 1;
    }
    proof {
        assert(evs.take(n as int) =~= evs);
    }
    count
}

/// Does the entry carry the label, compared without case?
fn has_label(e: &MailEntry, lb: &[u8]) -> (r: bool)
    ensures
        r == has_label_ci(entry_v(*e), lb@),
{
    let ghost ev = entry_v(*e);
    let n: usize = e.labels.len();
    let mut i: usize = 0;
    while i < n
        invariant
            0 <= i <= n == e.labels@.len(),
            ev == entry_v(*e),
            forall|j: int| 0 <= j < i ==> !eq_ignore_case_seq(#[trigger] ev.labels[j], lb@),
        decreases n - i,
    {
        proof {
            assert(ev.labels[i as int] == e.labels@[i as int]@);
        }
        if eq_ignore_case(e.labels[i].as_slice(), lb) {
            proof {
                assert(eq_ignore_case_seq(ev.labels[i as int], lb@));
            }
            return true;
        }
        i += 1;
    }
    false
}

/// Build the message text for an out-of-range index.
fn index_err_message(i: usize) -> (r: String)
    ensures
        r@ == index_err_chars(i as int),
{
    let mut m = String::from_str("Invalid email index: ");
    let mut digits: Vec<u8> = Vec::new();
    push_dec(i as u64, &mut digits);
    proof {
        lemma_dec_str_ascii(i as int);
    }
    let ds = crate::text::bytes_to_string(digits.as_slice());
    m.append(ds.as_str());
    m
}

/// Build the message text for an out-of-range attachment index.
fn attachment_err_message(i: usize) -> (r: String)
    ensures
        r@ == attachment_err_chars(i as int),
{
    let mut m = String::from_str("Invalid attachment index: ");
    let mut digits: Vec<u8> = Vec::new();
    push_dec(i as u64, &mut digits);
    proof {
        lemma_dec_str_ascii(i as int);
    }
    let ds = crate::text::bytes_to_string(digits.as_slice());
    m.append(ds.as_str());
    m
}

} // verus!
