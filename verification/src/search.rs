//! The search engine: evaluate a compiled query over the index.
//!
//! Metadata terms read the in-memory entries alone; a free-text term
//! falls back to materializing the message body from the file bytes.
//! Matches are reported as entry positions in index order, ascending,
//! before any truncation by the caller.

use vstd::prelude::*;
use vstd::string::StringExecFns;

use crate::error::AppError;
use crate::mime::spec_html_of;
use crate::mime::spec_text_of;
use crate::model::EntryV;
use crate::model::MailEntry;
use crate::model::entry_v;
use crate::query::Query;
use crate::query::QueryTerm;
use crate::query::TermV;
use crate::query::query_v;
use crate::query::spec_parse_query;
use crate::query::term_v;
use crate::query::parse_query;
use crate::text::contains_ci;
use crate::text::contains_ci_bytes;
use crate::text::eq_ignore_case;
use crate::text::eq_ignore_case_seq;
use crate::text::lemma_filter_take_step;

verus! {

/// Does the free-text needle match the message's materialized body?
pub open spec fn body_text_matches(s: Seq<u8>, e: EntryV, v: Seq<u8>) -> bool {
    &&& 0 <= e.offset
    &&& 0 <= e.length
    &&& e.offset + e.length <= s.len()
    &&& {
        let span = s.subrange(e.offset, e.offset + e.length);
        ||| (spec_text_of(span) matches Some(t) && contains_ci(t, v))
        ||| (spec_html_of(span) matches Some(h) && contains_ci(h, v))
    }
}

/// Does one term match an entry of the file `s`?
pub open spec fn term_matches(s: Seq<u8>, e: EntryV, t: TermV) -> bool {
    match t {
        TermV::From(v) => contains_ci(e.from_name, v) || contains_ci(e.from_address, v),
        TermV::To(v) => exists|i: int|
            0 <= i < e.to.len() && (contains_ci((#[trigger] e.to[i]).0, v) || contains_ci(
                e.to[i].1,
                v,
            )),
        TermV::Subject(v) => contains_ci(e.subject, v),
        TermV::Label(v) => exists|i: int|
            0 <= i < e.labels.len() && eq_ignore_case_seq(#[trigger] e.labels[i], v),
        TermV::HasAttachment(b) => e.has_attachments == b,
        TermV::After(t) => e.date.epoch_spec() >= t,
        TermV::Before(t) => e.date.epoch_spec() < t,
        TermV::Text(v) => contains_ci(e.subject, v) || contains_ci(e.from_name, v)
            || contains_ci(e.from_address, v) || body_text_matches(s, e, v),
    }
}

/// Does the whole query match an entry?
pub open spec fn entry_matches_query(s: Seq<u8>, e: EntryV, terms: Seq<TermV>) -> bool {
    forall|i: int| 0 <= i < terms.len() ==> term_matches(s, e, #[trigger] terms[i])
}

/// The positions of all matching entries, in index order.
pub open spec fn matching_indices(s: Seq<u8>, es: Seq<EntryV>, terms: Seq<TermV>) -> Seq<
    int,
> {
    Seq::new(es.len(), |i: int| i).filter(|i: int| entry_matches_query(s, es[i], terms))
}

/// Evaluate one term against one entry.
fn term_matches_exec(data: &[u8], e: &MailEntry, t: &QueryTerm) -> (r: bool)
    requires
        e.date.wf(),
    ensures
        r == term_matches(data@, entry_v(*e), term_v(*t)),
{
    let ghost ev = entry_v(*e);
    match t {
        QueryTerm::From(v) => contains_ci_bytes(e.from.name.as_slice(), v.as_slice())
            || contains_ci_bytes(e.from.address.as_slice(), v.as_slice()),
        QueryTerm::To(v) => {
            let n: usize = e.to.len();
            let mut i: usize = 0;
            while i < n
                invariant
                    0 <= i <= n == e.to@.len(),
                    ev == entry_v(*e),
                    term_v(*t) == TermV::To(v@),
                    forall|j: int|
                        0 <= j < i ==> !(contains_ci((#[trigger] ev.to[j]).0, v@)
                            || contains_ci(ev.to[j].1, v@)),
                decreases n - i,
            {
                let a = &e.to[i];
                proof {
                    assert(*a == e.to@[i as int]);
                    assert(ev.to[i as int] == (a.name@, a.address@));
                }
                if contains_ci_bytes(a.name.as_slice(), v.as_slice()) || contains_ci_bytes(
                    a.address.as_slice(),
                    v.as_slice(),
                ) {
                    proof {
                        assert(contains_ci(ev.to[i as int].0, v@) || contains_ci(
                            ev.to[i as int].1,
                            v@,
                        ));
                    }
                    return true;
                }
                i += 1;
            }
            false
        },
        QueryTerm::Subject(v) => contains_ci_bytes(e.subject.as_slice(), v.as_slice()),
        QueryTerm::Label(v) => {
            let n: usize = e.labels.len();
            let mut i: usize = 0;
            while i < n
                invariant
                    0 <= i <= n == e.labels@.len(),
                    ev == entry_v(*e),
                    term_v(*t) == TermV::Label(v@),
                    forall|j: int| 0 <= j < i ==> !eq_ignore_case_seq(#[trigger] ev.labels[j], v@),
                decreases n - i,
            {
                proof {
                    assert(ev.labels[i as int] == e.labels@[i as int]@);
                }
                if eq_ignore_case(e.labels[i].as_slice(), v.as_slice()) {
                    proof {
                        assert(eq_ignore_case_seq(ev.labels[i as int], v@));
                    }
                    return true;
                }
                i += 1;
            }
            false
        },
        QueryTerm::HasAttachment(b) => e.has_attachments == *b,
        QueryTerm::After(t) => e.date.epoch_seconds() >= *t,
        QueryTerm::Before(t) => e.date.epoch_seconds() < *t,
        QueryTerm::Text(v) => {
            if contains_ci_bytes(e.subject.as_slice(), v.as_slice()) {
                return true;
            }
            if contains_ci_bytes(e.from.name.as_slice(), v.as_slice()) {
                return true;
            }
            if contains_ci_bytes(e.from.address.as_slice(), v.as_slice()) {
                return true;
            }
            let dl: usize = data.len();
            if e.length > dl || e.offset > dl - e.length {
                return false;
            }
            let span = vstd::slice::slice_subrange(data, e.offset, e.offset + e.length);
            proof {
                assert(span@ =~= data@.subrange(
                    e.offset as int,
                    e.offset + e.length,
                ));
            }
            let mb = crate::mime::parse_message(span);
            match mb.text {
                Some(txt) => {
                    if contains_ci_bytes(txt.as_slice(), v.as_slice()) {
                        return true;
                    }
                },
                None => {},
            }
            match mb.html {
                Some(html) => {
                    if contains_ci_bytes(html.as_slice(), v.as_slice()) {
                        return true;
                    }
                },
                None => {},
            }
            false
        },
    }
}

/// Evaluate the whole query against one entry.
fn entry_matches_exec(data: &[u8], e: &MailEntry, q: &Query) -> (r: bool)
    requires
        e.date.wf(),
    ensures
        r == entry_matches_query(data@, entry_v(*e), query_v(*q)),
{
    let ghost terms = query_v(*q);
    let n: usize = q.terms.len();
    let mut i: usize = 0;
    while i < n
        invariant
            0 <= i <= n == q.terms@.len(),
            terms == query_v(*q),
            e.date.wf(),
            forall|j: int| 0 <= j < i ==> term_matches(data@, entry_v(*e), #[trigger] terms[j]),
        decreases n - i,
    {
        if !term_matches_exec(data, e, &q.terms[i]) {
            proof {
                assert(!term_matches(data@, entry_v(*e), terms[i as int]));
            }
            return false;
        }
        i += 1;
    }
    true
}

/// Compile the query text and collect the positions of all matching
/// entries, ascending.  Fails exactly on a query syntax error; no
/// partial result is returned then.
pub fn execute(data: &[u8], entries: &Vec<MailEntry>, query: &[u8]) -> (r: Result<
    (Query, Vec<usize>),
    AppError,
>)
    requires
        forall|k: int| 0 <= k < entries@.len() ==> (#[trigger] entries@[k]).date.wf(),
    ensures
        match r {
            Ok(qi) => spec_parse_query(query@) == Some(query_v(qi.0)) && qi.1@.map_values(
                |u: usize| u as int,
            ) == matching_indices(data@, entries@.map_values(|e: MailEntry| entry_v(e)), query_v(
                qi.0,
            )) && forall|k: int| 0 <= k < qi.1@.len() ==> (#[trigger] qi.1@[k]) < entries@.len(),
            Err(e) => spec_parse_query(query@) is None && (e matches AppError::MboxShell(m)
                && m@ == "invalid search query"@),
        },
{
    let q: Query = match parse_query(query) {
        Some(q) => q,
        None => {
            return Err(AppError::MboxShell(String::from_str("invalid search query")));
        },
    };
    let ghost evs = entries@.map_values(|e: MailEntry| entry_v(e));
    let ghost terms = query_v(q);
    let ghost idxs = Seq::new(entries@.len(), |i: int| i);
    let ghost pred = |i: int| entry_matches_query(data@, evs[i], terms);
    let n: usize = entries.len();
    let mut out: Vec<usize> = Vec::new();
    let mut i: usize = 0;
    proof {
        assert(idxs.take(0).filter(pred) =~= Seq::<int>::empty()) by {
            reveal(Seq::filter);
            assert(idxs.take(0) =~= Seq::<int>::empty());
        }
    }
    while i < n
        invariant
            0 <= i <= n == entries@.len(),
            forall|k: int| 0 <= k < entries@.len() ==> (#[trigger] entries@[k]).date.wf(),
            evs == entries@.map_values(|e: MailEntry| entry_v(e)),
            terms == query_v(q),
            idxs == Seq::new(entries@.len(), |i: int| i),
            pred == (|i: int| entry_matches_query(data@, evs[i], terms)),
            out@.map_values(|u: usize| u as int) == idxs.take(i as int).filter(pred),
            forall|k: int| 0 <= k < out@.len() ==> (#[trigger] out@[k]) < i,
        decreases n - i,
    {
        proof {
            lemma_filter_take_step(idxs, pred, i as int);
            assert(idxs[i as int] == i as int);
            assert(evs[i as int] == entry_v(entries@[i as int]));
        }
        if entry_matches_exec(data, &entries[i], &q) {
            out.push(i);
            proof {
                assert(out@.map_values(|u: usize| u as int) =~= idxs.take(i as int).filter(
                    pred,
                ).push(i as int));
            }
        }
        i += 1;
    }
    proof {
        assert(idxs.take(n as int) =~= idxs);
    }
    Ok((q, out))
}

} // verus!
