//! The line model of a message and RFC 5322 header-field access.
//!
//! A message span is viewed as lines separated by `\n`, each with a
//! trailing `\r` stripped.  The first line is the MBOX envelope and is
//! dropped; the header region runs to the first empty line; the body is
//! everything after it.  A header field may continue over lines that
//! start with whitespace; its value is the text after the colon with
//! each continuation appended after one space, trimmed.

use vstd::prelude::*;

use crate::text::eq_ignore_case;
use crate::text::eq_ignore_case_seq;
use crate::text::spec_split;
use crate::text::split_bytes;
use crate::text::starts_with;
use crate::text::starts_with_bytes;
use crate::text::trim;
use crate::text::contains_sub;
use crate::text::trim_bytes;

verus! {

/// A line with a trailing carriage return removed.
pub open spec fn strip_cr(l: Seq<u8>) -> Seq<u8> {
    if l.len() > 0 && l.last() == 13 {
        l.drop_last()
    } else {
        l
    }
}

/// The lines of `s`: split at `\n`, carriage returns stripped.
pub open spec fn spec_lines(s: Seq<u8>) -> Seq<Seq<u8>> {
    spec_split(s, 10).map_values(|l: Seq<u8>| strip_cr(l))
}

/// Split `s` into lines.
pub fn to_lines(s: &[u8]) -> (r: Vec<Vec<u8>>)
    ensures
        r@.map_values(|v: Vec<u8>| v@) == spec_lines(s@),
{
    let parts = split_bytes(s, 10);
    let ghost pmap = parts@.map_values(|v: Vec<u8>| v@);
    let mut out: Vec<Vec<u8>> = Vec::new();
    let n: usize = parts.len();
    let mut i: usize = 0;
    while i < n
        invariant
            0 <= i <= n == parts@.len(),
            pmap == parts@.map_values(|v: Vec<u8>| v@),
            out@.len() == i,
            forall|j: int| 0 <= j < i ==> (#[trigger] out@[j])@ == strip_cr(pmap[j]),
        decreases n - i,
    {
        let l = &parts[i];
        let ln: usize = l.len();
        if ln > 0 && l[ln - 1] == 13 {
            let cut = vstd::slice::slice_subrange(l.as_slice(), 0, ln - 1);
            let v = vstd::slice::slice_to_vec(cut);
            proof {
                assert(pmap[i as int].drop_last() =~= l@.subrange(0, ln - 1));
            }
            out.push(v);
        } else {
            let v = vstd::slice::slice_to_vec(l.as_slice());
            out.push(v);
        }
        i += 1;
    }
    proof {
        assert(out@.map_values(|v: Vec<u8>| v@) =~= spec_lines(s@));
    }
    out
}

/// Is this line a continuation of the previous header field?
pub open spec fn is_cont(l: Seq<u8>) -> bool {
    l.len() > 0 && (l[0] == 32 || l[0] == 9)
}

/// Does the line carry the header field `name` (case-insensitive)?
pub open spec fn is_field(l: Seq<u8>, name: Seq<u8>) -> bool {
    l.len() > name.len() && l[name.len() as int] == 58 && eq_ignore_case_seq(
        l.take(name.len() as int),
        name,
    )
}

/// Exec field test.
pub fn is_field_line(l: &[u8], name: &[u8]) -> (r: bool)
    ensures
        r == is_field(l@, name@),
{
    let nl: usize = name.len();
    if l.len() <= nl {
        return false;
    }
    if l[nl] != 58 {
        return false;
    }
    let head = vstd::slice::slice_subrange(l, 0, nl);
    eq_ignore_case(head, name)
}

/// Index of the first line carrying field `name`.
pub open spec fn spec_find_field(ls: Seq<Seq<u8>>, name: Seq<u8>) -> Option<int>
    decreases ls.len(),
{
    if ls.len() == 0 {
        None
    } else if is_field(ls[0], name) {
        Some(0int)
    } else {
        match spec_find_field(ls.drop_first(), name) {
            Some(i) => Some(i + 1),
            None => None,
        }
    }
}

pub proof fn lemma_find_field_at(ls: Seq<Seq<u8>>, name: Seq<u8>, k: int)
    requires
        0 <= k <= ls.len(),
        forall|j: int| 0 <= j < k ==> !is_field(#[trigger] ls[j], name),
        k == ls.len() || is_field(ls[k], name),
    ensures
        spec_find_field(ls, name) == if k == ls.len() {
            None::<int>
        } else {
            Some(k)
        },
    decreases k,
{
    if k == 0 {
    } else {
        let t = ls.drop_first();
        assert(forall|j: int| 0 <= j < k - 1 ==> !is_field(#[trigger] t[j], name));
        lemma_find_field_at(t, name, k - 1);
    }
}

/// A found field index is in range and names the field.
pub proof fn lemma_find_field_props(ls: Seq<Seq<u8>>, name: Seq<u8>)
    requires
        spec_find_field(ls, name) is Some,
    ensures
        ({
            let i = spec_find_field(ls, name)->Some_0;
            0 <= i < ls.len() && is_field(ls[i], name)
        }),
    decreases ls.len(),
{
    if ls.len() > 0 && !is_field(ls[0], name) {
        lemma_find_field_props(ls.drop_first(), name);
    }
}

/// The continuation text gathered after line `j`: one space plus the
/// trimmed line, for as long as lines continue the field.
pub open spec fn collect_cont(ls: Seq<Seq<u8>>, j: int) -> Seq<u8>
    decreases ls.len() - j,
{
    if 0 <= j < ls.len() && is_cont(ls[j]) {
        seq![32u8] + trim(ls[j]) + collect_cont(ls, j + 1)
    } else {
        Seq::<u8>::empty()
    }
}

/// The value of header field `name` within the lines `ls`: the text of
/// the first matching line after its colon, continuations appended,
/// trimmed; `None` when no line carries the field.
pub open spec fn header_value(ls: Seq<Seq<u8>>, name: Seq<u8>) -> Option<Seq<u8>> {
    match spec_find_field(ls, name) {
        Some(i) => Some(
            trim(ls[i].skip(name.len() as int + 1) + collect_cont(ls, i + 1)),
        ),
        None => None,
    }
}

/// Look a header field up.
pub fn get_header(ls: &Vec<Vec<u8>>, name: &[u8]) -> (r: Option<Vec<u8>>)
    ensures
        match r {
            Some(v) => header_value(ls@.map_values(|v: Vec<u8>| v@), name@) == Some(v@),
            None => header_value(ls@.map_values(|v: Vec<u8>| v@), name@) is None,
        },
{
    let ghost lsm = ls@.map_values(|v: Vec<u8>| v@);
    let n: usize = ls.len();
    let mut i: usize = 0;
    while i < n
        invariant
            0 <= i <= n == ls@.len(),
            lsm == ls@.map_values(|v: Vec<u8>| v@),
            forall|j: int| 0 <= j < i ==> !is_field(#[trigger] lsm[j], name@),
        decreases n - i,
    {
        if is_field_line(ls[i].as_slice(), name) {
            proof {
                lemma_find_field_at(lsm, name@, i as int);
            }
            let line = ls[i].as_slice();
            let ll: usize = line.len();
            let nl: usize = name.len();
            assert(nl < ll);
            let tail = vstd::slice::slice_subrange(line, nl + 1, ll);
            let mut acc: Vec<u8> = vstd::slice::slice_to_vec(tail);
            proof {
                assert(acc@ =~= lsm[i as int].skip(name@.len() as int + 1));
            }
            let ghost base = acc@;
            let mut j: usize = i + 1;
            while j < n && is_cont_line(ls[j].as_slice())
                invariant
                    i < j <= n == ls@.len(),
                    lsm == ls@.map_values(|v: Vec<u8>| v@),
                    acc@.len() >= base.len(),
                    acc@.take(base.len() as int) == base,
                    acc@.skip(base.len() as int) + collect_cont(lsm, j as int) == collect_cont(
                        lsm,
                        i as int + 1,
                    ),
                decreases n - j,
            {
                let ghost prev = acc@;
                let mut piece = trim_bytes(ls[j].as_slice());
                let ghost piece_view = piece@;
                acc.push(32);
                acc.append(&mut piece);
                proof {
                    assert(collect_cont(lsm, j as int) == seq![32u8] + trim(lsm[j as int])
                        + collect_cont(lsm, j as int + 1));
                    assert(acc@.take(base.len() as int) =~= base);
                    assert(acc@.skip(base.len() as int) =~= prev.skip(base.len() as int)
                        + seq![32u8] + piece_view);
                }
                j += 1;
            }
            proof {
                assert(collect_cont(lsm, j as int) == Seq::<u8>::empty());
                assert(acc@ =~= acc@.take(base.len() as int) + acc@.skip(base.len() as int));
                assert(acc@ =~= lsm[i as int].skip(name@.len() as int + 1) + collect_cont(
                    lsm,
                    i as int + 1,
                ));
            }
            let out = trim_bytes(acc.as_slice());
            return Some(out);
        }
        i += 1;
    }
    proof {
        lemma_find_field_at(lsm, name@, n as int);
    }
    None
}

/// A header value, or the empty sequence when the field is missing.
pub open spec fn field_or_empty(hdr: Seq<Seq<u8>>, name: Seq<u8>) -> Seq<u8> {
    match header_value(hdr, name) {
        Some(v) => v,
        None => Seq::<u8>::empty(),
    }
}

/// Exec continuation test.
pub fn is_cont_line(l: &[u8]) -> (r: bool)
    ensures
        r == is_cont(l@),
{
    l.len() > 0 && (l[0] == 32 || l[0] == 9)
}

/// Index of the first empty line, or the line count when none is empty.
pub open spec fn spec_first_blank(ls: Seq<Seq<u8>>) -> int
    decreases ls.len(),
{
    if ls.len() == 0 {
        0
    } else if ls[0].len() == 0 {
        0
    } else {
        1 + spec_first_blank(ls.drop_first())
    }
}

pub proof fn lemma_first_blank_at(ls: Seq<Seq<u8>>, k: int)
    requires
        0 <= k <= ls.len(),
        forall|j: int| 0 <= j < k ==> (#[trigger] ls[j]).len() > 0,
        k == ls.len() || ls[k].len() == 0,
    ensures
        spec_first_blank(ls) == k,
    decreases k,
{
    if k == 0 {
    } else {
        let t = ls.drop_first();
        assert(forall|j: int| 0 <= j < k - 1 ==> (#[trigger] t[j]).len() > 0);
        lemma_first_blank_at(t, k - 1);
    }
}

/// The MBOX envelope marker `From `.
pub open spec fn from_marker() -> Seq<u8> {
    seq![70u8, 114u8, 111u8, 109u8, 32u8]
}

/// The message's lines with the envelope line dropped.
pub open spec fn content_lines(msg: Seq<u8>) -> Seq<Seq<u8>> {
    let ls = spec_lines(msg);
    if ls.len() > 0 && starts_with(ls[0], from_marker()) {
        ls.drop_first()
    } else {
        ls
    }
}

/// The header region of a message span.
pub open spec fn header_lines_of(msg: Seq<u8>) -> Seq<Seq<u8>> {
    let ls = content_lines(msg);
    ls.take(spec_first_blank(ls))
}

/// The body region of a message span: everything after the first empty
/// line.
pub open spec fn body_lines_of(msg: Seq<u8>) -> Seq<Seq<u8>> {
    let ls = content_lines(msg);
    let b = spec_first_blank(ls);
    if b < ls.len() {
        ls.skip(b + 1)
    } else {
        Seq::<Seq<u8>>::empty()
    }
}

/// Split a message span into its header lines and body lines.
pub fn split_message(msg: &[u8]) -> (r: (Vec<Vec<u8>>, Vec<Vec<u8>>))
    ensures
        r.0@.map_values(|v: Vec<u8>| v@) == header_lines_of(msg@),
        r.1@.map_values(|v: Vec<u8>| v@) == body_lines_of(msg@),
{
    let mut ls = to_lines(msg);
    let ghost all = ls@.map_values(|v: Vec<u8>| v@);
    let from_mark: [u8; 5] = [70, 114, 111, 109, 32];
    proof {
        assert(from_mark@ =~= from_marker());
    }
    if ls.len() > 0 && starts_with_bytes(ls[0].as_slice(), from_mark.as_slice()) {
        let _ = ls.remove(0);
        proof {
            assert(ls@.map_values(|v: Vec<u8>| v@) =~= content_lines(msg@));
        }
    } else {
        proof {
            assert(ls@.map_values(|v: Vec<u8>| v@) =~= content_lines(msg@));
        }
    }
    let ghost cl = content_lines(msg@);
    let n: usize = ls.len();
    let mut b: usize = 0;
    while b < n && ls[b].len() > 0
        invariant
            0 <= b <= n == ls@.len(),
            ls@.map_values(|v: Vec<u8>| v@) == cl,
            forall|j: int| 0 <= j < b ==> (#[trigger] cl[j]).len() > 0,
        decreases n - b,
    {
        b += 1;
    }
    proof {
        lemma_first_blank_at(cl, b as int);
    }
    let mut hdr: Vec<Vec<u8>> = Vec::new();
    let mut i: usize = 0;
    while i < b
        invariant
            0 <= i <= b <= n == ls@.len(),
            ls@.map_values(|v: Vec<u8>| v@) == cl,
            hdr@.len() == i,
            forall|j: int| 0 <= j < i ==> (#[trigger] hdr@[j])@ == cl[j],
        decreases b - i,
    {
        hdr.push(vstd::slice::slice_to_vec(ls[i].as_slice()));
        i += 1;
    }
    proof {
        assert(hdr@.map_values(|v: Vec<u8>| v@) =~= header_lines_of(msg@));
    }
    let mut body: Vec<Vec<u8>> = Vec::new();
    if b < n {
        let mut k: usize = b + 1;
        while k < n
            invariant
                b + 1 <= k <= n == ls@.len(),
                ls@.map_values(|v: Vec<u8>| v@) == cl,
                body@.len() == k - b - 1,
                forall|j: int| 0 <= j < k - b - 1 ==> (#[trigger] body@[j])@ == cl[j + b + 1],
            decreases n - k,
        {
            body.push(vstd::slice::slice_to_vec(ls[k].as_slice()));
            k += 1;
        }
    }
    proof {
        assert(body@.map_values(|v: Vec<u8>| v@) =~= body_lines_of(msg@));
    }
    (hdr, body)
}

/// The header region of a plain line list: everything before the first
/// empty line.
pub open spec fn hdr_of_lines(ls: Seq<Seq<u8>>) -> Seq<Seq<u8>> {
    ls.take(spec_first_blank(ls))
}

/// The body region of a plain line list: everything after the first
/// empty line.
pub open spec fn body_of_lines(ls: Seq<Seq<u8>>) -> Seq<Seq<u8>> {
    let b = spec_first_blank(ls);
    if b < ls.len() {
        ls.skip(b + 1)
    } else {
        Seq::<Seq<u8>>::empty()
    }
}

/// Split a plain line list at its first empty line.
pub fn split_region(ls: &Vec<Vec<u8>>) -> (r: (Vec<Vec<u8>>, Vec<Vec<u8>>))
    ensures
        r.0@.map_values(|v: Vec<u8>| v@) == hdr_of_lines(ls@.map_values(|v: Vec<u8>| v@)),
        r.1@.map_values(|v: Vec<u8>| v@) == body_of_lines(ls@.map_values(|v: Vec<u8>| v@)),
{
    let ghost lsm = ls@.map_values(|v: Vec<u8>| v@);
    let n: usize = ls.len();
    let mut b: usize = 0;
    while b < n && ls[b].len() > 0
        invariant
            0 <= b <= n == ls@.len(),
            lsm == ls@.map_values(|v: Vec<u8>| v@),
            forall|j: int| 0 <= j < b ==> (#[trigger] lsm[j]).len() > 0,
        decreases n - b,
    {
        b += 1;
    }
    proof {
        lemma_first_blank_at(lsm, b as int);
    }
    let mut hdr: Vec<Vec<u8>> = Vec::new();
    let mut i: usize = 0;
    while i < b
        invariant
            0 <= i <= b <= n == ls@.len(),
            lsm == ls@.map_values(|v: Vec<u8>| v@),
            hdr@.len() == i,
            forall|j: int| 0 <= j < i ==> (#[trigger] hdr@[j])@ == lsm[j],
        decreases b - i,
    {
        hdr.push(vstd::slice::slice_to_vec(ls[i].as_slice()));
        i += 1;
    }
    proof {
        assert(hdr@.map_values(|v: Vec<u8>| v@) =~= hdr_of_lines(lsm));
    }
    let mut body: Vec<Vec<u8>> = Vec::new();
    if b < n {
        let mut k: usize = b + 1;
        while k < n
            invariant
                b + 1 <= k <= n == ls@.len(),
                lsm == ls@.map_values(|v: Vec<u8>| v@),
                body@.len() == k - b - 1,
                forall|j: int| 0 <= j < k - b - 1 ==> (#[trigger] body@[j])@ == lsm[j + b + 1],
            decreases n - k,
        {
            body.push(vstd::slice::slice_to_vec(ls[k].as_slice()));
            k += 1;
        }
    }
    proof {
        assert(body@.map_values(|v: Vec<u8>| v@) =~= body_of_lines(lsm));
    }
    (hdr, body)
}

/// Every line occurs contiguously within the newline join.
pub proof fn lemma_join_contains_line(ls: Seq<Seq<u8>>, i: int)
    requires
        0 <= i < ls.len(),
    ensures
        crate::text::contains_sub(join_nl(ls), ls[i]),
    decreases i,
{
    if i == 0 {
        assert(contains_sub(join_nl(ls), ls[0])) by {
            assert(join_nl(ls).subrange(0, 0 + ls[0].len() as int) =~= ls[0]);
        }
    } else {
        let rest = ls.drop_first();
        lemma_join_contains_line(rest, i - 1);
        let line = rest[i - 1];
        let p = choose|p: int|
            0 <= p && p + line.len() <= join_nl(rest).len() && #[trigger] join_nl(rest).subrange(
                p,
                p + line.len() as int,
            ) == line;
        let off = ls[0].len() + 1;
        assert(join_nl(ls) == ls[0] + seq![10u8] + join_nl(rest));
        assert(contains_sub(join_nl(ls), ls[i])) by {
            assert(join_nl(ls).subrange(off + p, (off + p) + ls[i].len() as int) =~= ls[i]);
        }
    }
}

/// When a field's line has no continuation, its recorded value occurs
/// verbatim within the joined header block.
pub proof fn lemma_plain_field_value_in_join(ls: Seq<Seq<u8>>, name: Seq<u8>)
    requires
        spec_find_field(ls, name) is Some,
        ({
            let i = spec_find_field(ls, name)->Some_0;
            !(i + 1 < ls.len() && is_cont(ls[i + 1]))
        }),
    ensures
        header_value(ls, name) matches Some(v) && crate::text::contains_sub(join_nl(ls), v),
{
    let i = spec_find_field(ls, name)->Some_0;
    lemma_find_field_props(ls, name);
    let tail = ls[i].skip(name.len() as int + 1);
    assert(collect_cont(ls, i + 1) == Seq::<u8>::empty());
    assert(tail + Seq::<u8>::empty() =~= tail);
    let v = trim(tail);
    assert(header_value(ls, name) == Some(v));
    assert(crate::text::contains_sub(ls[i], tail)) by {
        assert(ls[i].subrange(name.len() as int + 1, name.len() + 1 + tail.len() as int)
            =~= tail);
    }
    crate::text::lemma_trim_is_sub(tail);
    lemma_join_contains_line(ls, i);
    crate::text::lemma_contains_sub_trans(join_nl(ls), ls[i], tail);
    crate::text::lemma_contains_sub_trans(join_nl(ls), tail, v);
}

/// Lines joined back into bytes with `\n` between them.
pub open spec fn join_nl(ls: Seq<Seq<u8>>) -> Seq<u8>
    decreases ls.len(),
{
    if ls.len() == 0 {
        Seq::<u8>::empty()
    } else if ls.len() == 1 {
        ls[0]
    } else {
        ls[0] + seq![10u8] + join_nl(ls.drop_first())
    }
}

/// Join lines with `\n`.
pub fn join_lines(ls: &Vec<Vec<u8>>) -> (r: Vec<u8>)
    ensures
        r@ == join_nl(ls@.map_values(|v: Vec<u8>| v@)),
{
    let ghost lsm = ls@.map_values(|v: Vec<u8>| v@);
    let n: usize = ls.len();
    let mut out: Vec<u8> = Vec::new();
    if n == 0 {
        return out;
    }
    proof {
        assert(lsm.skip(0) =~= lsm);
    }
    let mut i: usize = 0;
    while i < n
        invariant
            0 <= i <= n == ls@.len(),
            lsm == ls@.map_values(|v: Vec<u8>| v@),
            out@ + join_nl(lsm.skip(i as int)) == join_nl(lsm),
        decreases n - i,
    {
        let mut piece = vstd::slice::slice_to_vec(ls[i].as_slice());
        out.append(&mut piece);
        if i + 1 < n {
            out.push(10);
            proof {
                assert(lsm.skip(i as int).drop_first() =~= lsm.skip(i as int + 1));
                assert(lsm.skip(i as int)[0] == lsm[i as int]);
                assert(out@ + join_nl(lsm.skip(i as int + 1)) =~= join_nl(lsm));
            }
        } else {
            proof {
                assert(lsm.skip(i as int).len() == 1);
                assert(lsm.skip(i as int)[0] == lsm[i as int]);
                assert(join_nl(lsm.skip(i as int)) == lsm[i as int]);
                assert(out@ =~= join_nl(lsm));
                assert(join_nl(lsm.skip(i as int + 1)) =~= Seq::<u8>::empty());
                assert(out@ + join_nl(lsm.skip(i as int + 1)) =~= join_nl(lsm));
            }
        }
        i += 1;
    }
    proof {
        assert(join_nl(lsm.skip(n as int)) =~= Seq::<u8>::empty());
        assert(out@ =~= join_nl(lsm));
    }
    out
}

} // verus!
