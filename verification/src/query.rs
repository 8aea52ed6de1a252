//! The search query language.
//!
//! A query is a whitespace-separated list of terms, all of which must
//! match.  A term `field:value` searches one field: `from:`, `to:` and
//! `subject:` match case-insensitive substrings of the respective
//! headers, `label:` matches one label exactly up to case, `has:` takes
//! the value `attachment` (or `attachments`), and `after:`/`before:`
//! take a date `yyyy-mm-dd` and compare against the message instant.
//! A bare term is free text and matches the subject, the sender, or the
//! message body; an unknown field name or an empty value is a syntax
//! error.  An empty query matches every message.

use vstd::prelude::*;

use crate::date::MailDate;
use crate::date::spec_num;
use crate::date::spec_tokens;
use crate::date::num_of;
use crate::date::tokenize;
use crate::text::eq_ignore_case_seq;
use crate::text::lower_seq;
use crate::text::spec_find;
use crate::text::find_first;
use crate::text::spec_split;
use crate::text::split_bytes;

verus! {

/// One compiled query term.
pub enum QueryTerm {
    From(Vec<u8>),
    To(Vec<u8>),
    Subject(Vec<u8>),
    Label(Vec<u8>),
    HasAttachment(bool),
    After(i64),
    Before(i64),
    Text(Vec<u8>),
}

/// A compiled query: the conjunction of its terms.
pub struct Query {
    pub terms: Vec<QueryTerm>,
}

/// The spec-level shape of a term.
pub enum TermV {
    From(Seq<u8>),
    To(Seq<u8>),
    Subject(Seq<u8>),
    Label(Seq<u8>),
    HasAttachment(bool),
    After(int),
    Before(int),
    Text(Seq<u8>),
}

/// The spec-level value of a compiled term.
pub open spec fn term_v(t: QueryTerm) -> TermV {
    match t {
        QueryTerm::From(v) => TermV::From(v@),
        QueryTerm::To(v) => TermV::To(v@),
        QueryTerm::Subject(v) => TermV::Subject(v@),
        QueryTerm::Label(v) => TermV::Label(v@),
        QueryTerm::HasAttachment(b) => TermV::HasAttachment(b),
        QueryTerm::After(t) => TermV::After(t as int),
        QueryTerm::Before(t) => TermV::Before(t as int),
        QueryTerm::Text(v) => TermV::Text(v@),
    }
}

/// The spec-level value of a compiled query.
pub open spec fn query_v(q: Query) -> Seq<TermV> {
    q.terms@.map_values(|t: QueryTerm| term_v(t))
}

/// The field names of the query language.
pub open spec fn f_from() -> Seq<u8> {
    seq![102u8, 114u8, 111u8, 109u8]
}

pub open spec fn f_to() -> Seq<u8> {
    seq![116u8, 111u8]
}

pub open spec fn f_subject() -> Seq<u8> {
    seq![115u8, 117u8, 98u8, 106u8, 101u8, 99u8, 116u8]
}

pub open spec fn f_label() -> Seq<u8> {
    seq![108u8, 97u8, 98u8, 101u8, 108u8]
}

pub open spec fn f_has() -> Seq<u8> {
    seq![104u8, 97u8, 115u8]
}

pub open spec fn f_after() -> Seq<u8> {
    seq![97u8, 102u8, 116u8, 101u8, 114u8]
}

pub open spec fn f_before() -> Seq<u8> {
    seq![98u8, 101u8, 102u8, 111u8, 114u8, 101u8]
}

/// The accepted values of `has:`.
pub open spec fn v_attachment() -> Seq<u8> {
    seq![97u8, 116u8, 116u8, 97u8, 99u8, 104u8, 109u8, 101u8, 110u8, 116u8]
}

pub open spec fn v_attachments() -> Seq<u8> {
    seq![97u8, 116u8, 116u8, 97u8, 99u8, 104u8, 109u8, 101u8, 110u8, 116u8, 115u8]
}

/// The instant a `yyyy-mm-dd` query date denotes: midnight UTC of that
/// day.
pub open spec fn spec_qdate(v: Seq<u8>) -> Option<int> {
    let ps = spec_split(v, 45);
    if ps.len() == 3 {
        match (spec_num(ps[0], 4, 1, 9999), spec_num(ps[1], 2, 1, 12), spec_num(ps[2], 2, 1, 31)) {
            (Some(y), Some(m), Some(d)) => Some(
                MailDate {
                    year: y as u16,
                    month: m as u8,
                    day: d as u8,
                    hour: 0,
                    minute: 0,
                    second: 0,
                    tz_minutes: 0,
                }.epoch_spec(),
            ),
            _ => None,
        }
    } else {
        None
    }
}

/// Exec query-date parse.
pub fn qdate_of(v: &[u8]) -> (r: Option<i64>)
    ensures
        match r {
            Some(t) => spec_qdate(v@) == Some(t as int),
            None => spec_qdate(v@) is None,
        },
{
    let ps = split_bytes(v, 45);
    let ghost pm = ps@.map_values(|p: Vec<u8>| p@);
    if ps.len() != 3 {
        return None;
    }
    assert(pm[0] == ps@[0]@ && pm[1] == ps@[1]@ && pm[2] == ps@[2]@);
    let y = num_of(ps[0].as_slice(), 4, 1, 9999);
    let m = num_of(ps[1].as_slice(), 2, 1, 12);
    let d = num_of(ps[2].as_slice(), 2, 1, 31);
    match (y, m, d) {
        (Some(y), Some(m), Some(d)) => {
            let md = MailDate {
                year: y as u16,
                month: m as u8,
                day: d as u8,
                hour: 0,
                minute: 0,
                second: 0,
                tz_minutes: 0,
            };
            Some(md.epoch_seconds())
        },
        _ => None,
    }
}

/// The spec-level compilation of one token, or `None` on a syntax
/// error.
pub open spec fn spec_parse_term(tok: Seq<u8>) -> Option<TermV> {
    match spec_find(tok, 58) {
        Some(i) => {
            if i == 0 || i + 1 >= tok.len() {
                None
            } else {
                let f = lower_seq(tok.take(i));
                let v = tok.skip(i + 1);
                if f == f_from() {
                    Some(TermV::From(v))
                } else if f == f_to() {
                    Some(TermV::To(v))
                } else if f == f_subject() {
                    Some(TermV::Subject(v))
                } else if f == f_label() {
                    Some(TermV::Label(v))
                } else if f == f_has() {
                    if eq_ignore_case_seq(v, v_attachment()) || eq_ignore_case_seq(
                        v,
                        v_attachments(),
                    ) {
                        Some(TermV::HasAttachment(true))
                    } else {
                        None
                    }
                } else if f == f_after() {
                    match spec_qdate(v) {
                        Some(t) => Some(TermV::After(t)),
                        None => None,
                    }
                } else if f == f_before() {
                    match spec_qdate(v) {
                        Some(t) => Some(TermV::Before(t)),
                        None => None,
                    }
                } else {
                    None
                }
            }
        },
        None => Some(TermV::Text(tok)),
    }
}

/// The spec-level compilation of the tokens from `k` on.
pub open spec fn terms_from(toks: Seq<Seq<u8>>, k: int) -> Option<Seq<TermV>>
    decreases toks.len() - k,
{
    if k < 0 || k >= toks.len() {
        Some(Seq::<TermV>::empty())
    } else {
        match (spec_parse_term(toks[k]), terms_from(toks, k + 1)) {
            (Some(t), Some(rest)) => Some(seq![t] + rest),
            _ => None,
        }
    }
}

/// The spec-level compilation of a whole query.
pub open spec fn spec_parse_query(q: Seq<u8>) -> Option<Seq<TermV>> {
    terms_from(spec_tokens(q), 0)
}

/// Compile one token.
pub fn parse_term(tok: &[u8]) -> (r: Option<QueryTerm>)
    ensures
        match r {
            Some(t) => spec_parse_term(tok@) == Some(term_v(t)),
            None => spec_parse_term(tok@) is None,
        },
{
    let tn: usize = tok.len();
    match find_first(tok, 58) {
        Some(i) => {
            if i == 0 || i + 1 >= tn {
                return None;
            }
            let fpart = vstd::slice::slice_subrange(tok, 0, i);
            let mut f: Vec<u8> = Vec::new();
            let fl: usize = fpart.len();
            let mut j: usize = 0;
            while j < fl
                invariant
                    0 <= j <= fl == fpart@.len(),
                    f@ == lower_seq(fpart@.take(j as int)),
                decreases fl - j,
            {
                f.push(crate::text::to_lower(fpart[j]));
                proof {
                    assert(f@ =~= lower_seq(fpart@.take(j + 1)));
                }
                j += 1;
            }
            proof {
                assert(fpart@.take(fl as int) =~= fpart@);
                assert(fpart@ =~= tok@.take(i as int));
            }
            let vpart = vstd::slice::slice_subrange(tok, i + 1, tn);
            proof {
                assert(vpart@ =~= tok@.skip(i + 1));
            }
            let v = vstd::slice::slice_to_vec(vpart);
            let nf: [u8; 4] = [102, 114, 111, 109];
            let nt: [u8; 2] = [116, 111];
            let ns: [u8; 7] = [115, 117, 98, 106, 101, 99, 116];
            let nl: [u8; 5] = [108, 97, 98, 101, 108];
            let nh: [u8; 3] = [104, 97, 115];
            let na: [u8; 5] = [97, 102, 116, 101, 114];
            let nb: [u8; 6] = [98, 101, 102, 111, 114, 101];
            let att1: [u8; 10] = [97, 116, 116, 97, 99, 104, 109, 101, 110, 116];
            let att2: [u8; 11] = [97, 116, 116, 97, 99, 104, 109, 101, 110, 116, 115];
            proof {
                assert(nf@ =~= f_from());
                assert(nt@ =~= f_to());
                assert(ns@ =~= f_subject());
                assert(nl@ =~= f_label());
                assert(nh@ =~= f_has());
                assert(na@ =~= f_after());
                assert(nb@ =~= f_before());
                assert(att1@ =~= v_attachment());
                assert(att2@ =~= v_attachments());
            }
            if crate::text::eq_bytes(f.as_slice(), nf.as_slice()) {
                Some(QueryTerm::From(v))
            } else if crate::text::eq_bytes(f.as_slice(), nt.as_slice()) {
                Some(QueryTerm::To(v))
            } else if crate::text::eq_bytes(f.as_slice(), ns.as_slice()) {
                Some(QueryTerm::Subject(v))
            } else if crate::text::eq_bytes(f.as_slice(), nl.as_slice()) {
                Some(QueryTerm::Label(v))
            } else if crate::text::eq_bytes(f.as_slice(), nh.as_slice()) {
                if crate::text::eq_ignore_case(v.as_slice(), att1.as_slice())
                    || crate::text::eq_ignore_case(v.as_slice(), att2.as_slice()) {
                    Some(QueryTerm::HasAttachment(true))
                } else {
                    None
                }
            } else if crate::text::eq_bytes(f.as_slice(), na.as_slice()) {
                match qdate_of(v.as_slice()) {
                    Some(t) => Some(QueryTerm::After(t)),
                    None => None,
                }
            } else if crate::text::eq_bytes(f.as_slice(), nb.as_slice()) {
                match qdate_of(v.as_slice()) {
                    Some(t) => Some(QueryTerm::Before(t)),
                    None => None,
                }
            } else {
                None
            }
        },
        None => {
            let v = vstd::slice::slice_to_vec(tok);
            Some(QueryTerm::Text(v))
        },
    }
}

/// Compile a whole query; `None` reports a syntax error.
pub fn parse_query(q: &[u8]) -> (r: Option<Query>)
    ensures
        match r {
            Some(qq) => spec_parse_query(q@) == Some(query_v(qq)),
            None => spec_parse_query(q@) is None,
        },
{
    let toks = tokenize(q);
    let ghost tm = toks@.map_values(|t: Vec<u8>| t@);
    let n: usize = toks.len();
    let mut terms: Vec<QueryTerm> = Vec::new();
    let mut k: usize = 0;
    while k < n
        invariant
            0 <= k <= n == toks@.len(),
            tm == toks@.map_values(|t: Vec<u8>| t@),
            tm == spec_tokens(q@),
            forall|j: int| 0 <= j < k ==> spec_parse_term(#[trigger] tm[j]) is Some,
            terms@.len() == k,
            forall|j: int|
                0 <= j < k ==> spec_parse_term(tm[j]) == Some(term_v(#[trigger] terms@[j])),
        decreases n - k,
    {
        match parse_term(toks[k].as_slice()) {
            Some(t) => {
                terms.push(t);
            },
            None => {
                proof {
                    lemma_terms_from_fails(tm, 0, k as int);
                }
                return None;
            },
        }
        k += 1;
    }
    proof {
        lemma_terms_from_all(tm, terms@.map_values(|t: QueryTerm| term_v(t)), 0);
    }
    Some(Query { terms })
}

/// When one token fails to compile, the whole query fails.
pub proof fn lemma_terms_from_fails(toks: Seq<Seq<u8>>, k: int, bad: int)
    requires
        0 <= k <= bad < toks.len(),
        spec_parse_term(toks[bad]) is None,
    ensures
        terms_from(toks, k) is None,
    decreases bad - k,
{
    if k < bad {
        lemma_terms_from_fails(toks, k + 1, bad);
    }
}

/// When every token from `k` on compiles to the matching entry of
/// `out`, the whole tail compiles to exactly those terms.
pub proof fn lemma_terms_from_all(toks: Seq<Seq<u8>>, out: Seq<TermV>, k: int)
    requires
        0 <= k <= toks.len(),
        out.len() == toks.len() - k,
        forall|j: int|
            k <= j < toks.len() ==> spec_parse_term(#[trigger] toks[j]) == Some(out[j - k]),
    ensures
        terms_from(toks, k) == Some(out),
    decreases toks.len() - k,
{
    if k == toks.len() {
        assert(out =~= Seq::<TermV>::empty());
    } else {
        lemma_terms_from_all(toks, out.drop_first(), k + 1);
        assert(out =~= seq![out[0]] + out.drop_first());
    }
}

} // verus!
