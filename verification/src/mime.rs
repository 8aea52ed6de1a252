//! MIME machinery: transfer decodings, multipart splitting, and the
//! interpretation of one message span as a full body.
//!
//! Parsing is deliberately total and lenient: malformed content decodes
//! to a best effort rather than failing, so that one bad message never
//! stops the caller from reading the others.  Only one level of
//! multipart nesting is interpreted; parts of nested multiparts appear
//! as plain parts of the outer message.

use vstd::prelude::*;

use crate::headers::body_of_lines;
use crate::headers::field_or_empty;
use crate::headers::hdr_of_lines;
use crate::headers::join_nl;
use crate::headers::join_lines;
use crate::headers::split_region;
use crate::headers::get_header;
use crate::text::eq_ignore_case;
use crate::text::eq_ignore_case_seq;
use crate::text::eq_bytes;
use crate::text::lemma_filter_take_step;
use crate::text::spec_find;
use crate::text::find_first;
use crate::text::spec_split;
use crate::text::split_bytes;
use crate::text::starts_with_ci;
use crate::text::starts_with_ci_bytes;
use crate::text::strip_quotes;
use crate::text::strip_quotes_vec;
use crate::text::trim;
use crate::text::trim_bytes;

verus! {

/// Is the byte an ASCII hexadecimal digit?
pub open spec fn is_hex(b: u8) -> bool {
    (48 <= b <= 57) || (65 <= b <= 70) || (97 <= b <= 102)
}

/// Value of a hexadecimal digit.
pub open spec fn hex_val(b: u8) -> int {
    if 48 <= b <= 57 {
        b - 48
    } else if 65 <= b <= 70 {
        b - 55
    } else if 97 <= b <= 102 {
        b - 87
    } else {
        0
    }
}

/// Exec hexadecimal digit test and value.
pub fn hex_digit(b: u8) -> (r: Option<u8>)
    ensures
        match r {
            Some(v) => is_hex(b) && v == hex_val(b),
            None => !is_hex(b),
        },
{
    if 48 <= b && b <= 57 {
        Some(b - 48)
    } else if 65 <= b && b <= 70 {
        Some(b - 55)
    } else if 97 <= b && b <= 102 {
        Some(b - 87)
    } else {
        None
    }
}

/// Quoted-printable decoding: `=XY` yields the byte `0xXY`, a `=`
/// before a line break vanishes (soft break), anything else passes
/// through.
pub open spec fn qp_decode(s: Seq<u8>) -> Seq<u8>
    decreases s.len(),
{
    if s.len() == 0 {
        Seq::<u8>::empty()
    } else if s[0] == 61 {
        if s.len() >= 3 && is_hex(s[1]) && is_hex(s[2]) {
            seq![(hex_val(s[1]) * 16 + hex_val(s[2])) as u8] + qp_decode(s.skip(3))
        } else if s.len() >= 3 && s[1] == 13 && s[2] == 10 {
            qp_decode(s.skip(3))
        } else if s.len() >= 2 && s[1] == 10 {
            qp_decode(s.skip(2))
        } else {
            seq![61u8] + qp_decode(s.skip(1))
        }
    } else {
        seq![s[0]] + qp_decode(s.skip(1))
    }
}

/// Exec quoted-printable decoding.
pub fn qp_decode_bytes(s: &[u8]) -> (r: Vec<u8>)
    ensures
        r@ == qp_decode(s@),
{
    let n: usize = s.len();
    let mut out: Vec<u8> = Vec::new();
    let mut i: usize = 0;
    proof {
        assert(s@.skip(0) =~= s@);
    }
    while i < n
        invariant
            0 <= i <= n == s@.len(),
            out@ + qp_decode(s@.skip(i as int)) == qp_decode(s@),
        decreases n - i,
    {
        let ghost suf = s@.skip(i as int);
        let b = s[i];
        assert(suf[0] == b);
        if b == 61 {
            if n - i > 2 {
                let h1 = hex_digit(s[i + 1]);
                let h2 = hex_digit(s[i + 2]);
                match (h1, h2) {
                    (Some(v1), Some(v2)) => {
                        assert(suf[1] == s@[i + 1] && suf[2] == s@[i + 2]);
                        out.push(v1 * 16 + v2);
                        proof {
                            assert(suf.skip(3) =~= s@.skip(i + 3));
                        }
                        i += 3;
                    },
                    _ => {
                        if s[i + 1] == 13 && s[i + 2] == 10 {
                            proof {
                                assert(suf.skip(3) =~= s@.skip(i + 3));
                            }
                            i += 3;
                        } else if s[i + 1] == 10 {
                            proof {
                                assert(suf.skip(2) =~= s@.skip(i + 2));
                            }
                            i += 2;
                        } else {
                            out.push(61);
                            proof {
                                assert(suf.skip(1) =~= s@.skip(i + 1));
                            }
                            i += 1;
                        }
                    },
                }
            } else if i + 1 < n && s[i + 1] == 10 {
                assert(suf[1] == s@[i + 1]);
                proof {
                    assert(suf.skip(2) =~= s@.skip(i + 2));
                }
                i += 2;
            } else {
                out.push(61);
                proof {
                    assert(suf.skip(1) =~= s@.skip(i + 1));
                }
                i += 1;
            }
        } else {
            out.push(b);
            proof {
                assert(suf.skip(1) =~= s@.skip(i + 1));
            }
            i += 1;
        }
    }
    proof {
        assert(s@.skip(n as int) =~= Seq::<u8>::empty());
        assert(out@ =~= qp_decode(s@));
    }
    out
}

/// Is the byte in the base64 alphabet (padding excluded)?
pub open spec fn is_b64(b: u8) -> bool {
    (65 <= b <= 90) || (97 <= b <= 122) || (48 <= b <= 57) || b == 43 || b == 47
}

/// Value of a base64 alphabet byte.
pub open spec fn b64_val(b: u8) -> int {
    if 65 <= b <= 90 {
        b - 65
    } else if 97 <= b <= 122 {
        b - 71
    } else if 48 <= b <= 57 {
        b + 4
    } else if b == 43 {
        62
    } else if b == 47 {
        63
    } else {
        0
    }
}

/// Exec base64 alphabet test and value.
pub fn b64_digit(b: u8) -> (r: Option<u8>)
    ensures
        match r {
            Some(v) => is_b64(b) && v == b64_val(b) && v < 64,
            None => !is_b64(b),
        },
{
    if 65 <= b && b <= 90 {
        Some(b - 65)
    } else if 97 <= b && b <= 122 {
        Some(b - 71)
    } else if 48 <= b && b <= 57 {
        Some(b + 4)
    } else if b == 43 {
        Some(62)
    } else if b == 47 {
        Some(63)
    } else {
        None
    }
}

/// Decoding of a run of base64 alphabet values: full groups of four
/// yield three bytes, a trailing three yield two, a trailing two one,
/// and a lone trailing value nothing.
pub open spec fn b64_groups(cs: Seq<u8>) -> Seq<u8>
    decreases cs.len(),
{
    if cs.len() >= 4 {
        seq![
            (b64_val(cs[0]) * 4 + b64_val(cs[1]) / 16) as u8,
            (b64_val(cs[1]) % 16 * 16 + b64_val(cs[2]) / 4) as u8,
            (b64_val(cs[2]) % 4 * 64 + b64_val(cs[3])) as u8,
        ] + b64_groups(cs.skip(4))
    } else if cs.len() == 3 {
        seq![
            (b64_val(cs[0]) * 4 + b64_val(cs[1]) / 16) as u8,
            (b64_val(cs[1]) % 16 * 16 + b64_val(cs[2]) / 4) as u8,
        ]
    } else if cs.len() == 2 {
        seq![(b64_val(cs[0]) * 4 + b64_val(cs[1]) / 16) as u8]
    } else {
        Seq::<u8>::empty()
    }
}

/// Base64 decoding of arbitrary bytes: everything outside the alphabet
/// (whitespace, padding, junk) is ignored, then the values decode in
/// groups.
pub open spec fn b64_decode(s: Seq<u8>) -> Seq<u8> {
    b64_groups(s.filter(|b: u8| is_b64(b)))
}

/// Exec base64 decoding.
pub fn b64_decode_bytes(s: &[u8]) -> (r: Vec<u8>)
    ensures
        r@ == b64_decode(s@),
{
    let ghost pred = |b: u8| is_b64(b);
    let n: usize = s.len();
    let mut cs: Vec<u8> = Vec::new();
    let mut i: usize = 0;
    proof {
        assert(s@.take(0).filter(pred) =~= Seq::<u8>::empty()) by {
            reveal(Seq::filter);
            assert(s@.take(0) =~= Seq::<u8>::empty());
        }
    }
    while i < n
        invariant
            0 <= i <= n == s@.len(),
            pred == (|b: u8| is_b64(b)),
            cs@ == s@.take(i as int).filter(pred),
            forall|j: int| 0 <= j < cs@.len() ==> is_b64(#[trigger] cs@[j]),
        decreases n - i,
    {
        proof {
            crate::text::lemma_filter_take_step(s@, pred, i as int);
        }
        let b = s[i];
        match b64_digit(b) {
            Some(_) => {
                cs.push(b);
            },
            None => {},
        }
        i += 1;
    }
    proof {
        assert(s@.take(n as int) =~= s@);
    }
    let m: usize = cs.len();
    let mut out: Vec<u8> = Vec::new();
    let mut k: usize = 0;
    proof {
        assert(cs@.skip(0) =~= cs@);
    }
    while m - k >= 4
        invariant
            0 <= k <= m == cs@.len(),
            forall|j: int| 0 <= j < cs@.len() ==> is_b64(#[trigger] cs@[j]),
            out@ + b64_groups(cs@.skip(k as int)) == b64_groups(cs@),
        decreases m - k,
    {
        let ghost suf = cs@.skip(k as int);
        let v0 = b64_value(cs[k]);
        let v1 = b64_value(cs[k + 1]);
        let v2 = b64_value(cs[k + 2]);
        let v3 = b64_value(cs[k + 3]);
        assert(suf[0] == cs@[k as int] && suf[1] == cs@[k + 1] && suf[2] == cs@[k + 2] && suf[3]
            == cs@[k + 3]);
        out.push(v0 * 4 + v1 / 16);
        out.push(v1 % 16 * 16 + v2 / 4);
        out.push(v2 % 4 * 64 + v3);
        proof {
            assert(suf.skip(4) =~= cs@.skip(k + 4));
        }
        k += 4;
    }
    let ghost suf = cs@.skip(k as int);
    if m - k == 3 {
        let v0 = b64_value(cs[k]);
        let v1 = b64_value(cs[k + 1]);
        let v2 = b64_value(cs[k + 2]);
        assert(suf[0] == cs@[k as int] && suf[1] == cs@[k + 1] && suf[2] == cs@[k + 2]);
        out.push(v0 * 4 + v1 / 16);
        out.push(v1 % 16 * 16 + v2 / 4);
    } else if m - k == 2 {
        let v0 = b64_value(cs[k]);
        let v1 = b64_value(cs[k + 1]);
        assert(suf[0] == cs@[k as int] && suf[1] == cs@[k + 1]);
        out.push(v0 * 4 + v1 / 16);
    }
    proof {
        assert(out@ =~= b64_groups(cs@));
    }
    out
}

/// Exec base64 value of an alphabet byte.
fn b64_value(b: u8) -> (r: u8)
    requires
        is_b64(b),
    ensures
        r == b64_val(b),
        r < 64,
{
    if 65 <= b && b <= 90 {
        b - 65
    } else if 97 <= b && b <= 122 {
        b - 71
    } else if 48 <= b && b <= 57 {
        b + 4
    } else if b == 43 {
        62
    } else {
        63
    }
}

/// Header-field names this module reads.
pub open spec fn h_content_type() -> Seq<u8> {
    seq![99u8, 111u8, 110u8, 116u8, 101u8, 110u8, 116u8, 45u8, 116u8, 121u8, 112u8, 101u8]
}

pub open spec fn h_cte() -> Seq<u8> {
    seq![99u8, 111u8, 110u8, 116u8, 101u8, 110u8, 116u8, 45u8, 116u8, 114u8, 97u8, 110u8,
        115u8, 102u8, 101u8, 114u8, 45u8, 101u8, 110u8, 99u8, 111u8, 100u8, 105u8, 110u8,
        103u8]
}

pub open spec fn h_cd() -> Seq<u8> {
    seq![99u8, 111u8, 110u8, 116u8, 101u8, 110u8, 116u8, 45u8, 100u8, 105u8, 115u8, 112u8,
        111u8, 115u8, 105u8, 116u8, 105u8, 111u8, 110u8]
}

/// The encoding names `base64` and `quoted-printable`.
pub open spec fn b64_name() -> Seq<u8> {
    seq![98u8, 97u8, 115u8, 101u8, 54u8, 52u8]
}

pub open spec fn qp_name() -> Seq<u8> {
    seq![113u8, 117u8, 111u8, 116u8, 101u8, 100u8, 45u8, 112u8, 114u8, 105u8, 110u8, 116u8,
        97u8, 98u8, 108u8, 101u8]
}

/// The media-type prefix `multipart/` and the parameter keys.
pub open spec fn multipart_prefix() -> Seq<u8> {
    seq![109u8, 117u8, 108u8, 116u8, 105u8, 112u8, 97u8, 114u8, 116u8, 47u8]
}

pub open spec fn boundary_key() -> Seq<u8> {
    seq![98u8, 111u8, 117u8, 110u8, 100u8, 97u8, 114u8, 121u8]
}

pub open spec fn filename_key() -> Seq<u8> {
    seq![102u8, 105u8, 108u8, 101u8, 110u8, 97u8, 109u8, 101u8]
}

pub open spec fn name_key() -> Seq<u8> {
    seq![110u8, 97u8, 109u8, 101u8]
}

/// The media type of a header value: the text before the first `;`,
/// trimmed.
pub open spec fn spec_mime_type(v: Seq<u8>) -> Seq<u8> {
    match spec_find(v, 59) {
        Some(i) => trim(v.take(i)),
        None => trim(v),
    }
}

/// Exec media-type extraction.
pub fn mime_type_of(v: &[u8]) -> (r: Vec<u8>)
    ensures
        r@ == spec_mime_type(v@),
{
    match find_first(v, 59) {
        Some(i) => {
            let head = vstd::slice::slice_subrange(v, 0, i);
            proof {
                assert(head@ =~= v@.take(i as int));
            }
            trim_bytes(head)
        },
        None => trim_bytes(v),
    }
}

/// Does the `;`-separated piece set parameter `key`?
pub open spec fn is_param(p: Seq<u8>, key: Seq<u8>) -> bool {
    starts_with_ci(trim(p), key + seq![61u8])
}

/// Index of the first piece setting parameter `key`.
pub open spec fn spec_find_param(ps: Seq<Seq<u8>>, key: Seq<u8>) -> Option<int>
    decreases ps.len(),
{
    if ps.len() == 0 {
        None
    } else if is_param(ps[0], key) {
        Some(0int)
    } else {
        match spec_find_param(ps.drop_first(), key) {
            Some(i) => Some(i + 1),
            None => None,
        }
    }
}

pub proof fn lemma_find_param_at(ps: Seq<Seq<u8>>, key: Seq<u8>, k: int)
    requires
        0 <= k <= ps.len(),
        forall|j: int| 0 <= j < k ==> !is_param(#[trigger] ps[j], key),
        k == ps.len() || is_param(ps[k], key),
    ensures
        spec_find_param(ps, key) == if k == ps.len() {
            None::<int>
        } else {
            Some(k)
        },
    decreases k,
{
    if k > 0 {
        let t = ps.drop_first();
        assert(forall|j: int| 0 <= j < k - 1 ==> !is_param(#[trigger] t[j], key));
        lemma_find_param_at(t, key, k - 1);
    }
}

/// The value of parameter `key` within a structured header value:
/// the text after `key=` in the first `;`-piece that sets it, trimmed
/// and unquoted.
pub open spec fn param_of(v: Seq<u8>, key: Seq<u8>) -> Option<Seq<u8>> {
    let ps = spec_split(v, 59);
    match spec_find_param(ps, key) {
        Some(i) => Some(strip_quotes(trim(trim(ps[i]).skip(key.len() as int + 1)))),
        None => None,
    }
}

/// Exec parameter lookup.
pub fn get_param(v: &[u8], key: &[u8]) -> (r: Option<Vec<u8>>)
    ensures
        match r {
            Some(val) => param_of(v@, key@) == Some(val@),
            None => param_of(v@, key@) is None,
        },
{
    let ps = split_bytes(v, 59);
    let ghost pm = ps@.map_values(|p: Vec<u8>| p@);
    let mut keyeq: Vec<u8> = vstd::slice::slice_to_vec(key);
    keyeq.push(61);
    proof {
        assert(keyeq@ =~= key@ + seq![61u8]);
    }
    let n: usize = ps.len();
    let mut i: usize = 0;
    while i < n
        invariant
            0 <= i <= n == ps@.len(),
            pm == ps@.map_values(|p: Vec<u8>| p@),
            pm == spec_split(v@, 59),
            keyeq@ == key@ + seq![61u8],
            forall|j: int| 0 <= j < i ==> !is_param(#[trigger] pm[j], key@),
        decreases n - i,
    {
        let t = trim_bytes(ps[i].as_slice());
        if starts_with_ci_bytes(t.as_slice(), keyeq.as_slice()) {
            proof {
                lemma_find_param_at(pm, key@, i as int);
            }
            let tl: usize = t.len();
            let kl: usize = key.len();
            assert(t@.len() >= keyeq@.len());
            let tail = vstd::slice::slice_subrange(t.as_slice(), kl + 1, tl);
            proof {
                assert(tail@ =~= trim(pm[i as int]).skip(key@.len() as int + 1));
            }
            let tt = trim_bytes(tail);
            let out = strip_quotes_vec(tt);
            return Some(out);
        }
        i += 1;
    }
    proof {
        lemma_find_param_at(pm, key@, n as int);
    }
    None
}

/// The delimiter `--`.
pub open spec fn dashdash() -> Seq<u8> {
    seq![45u8, 45u8]
}

/// Is the line a part delimiter for boundary `bnd`?
pub open spec fn is_delim(l: Seq<u8>, bnd: Seq<u8>) -> bool {
    trim(l) == dashdash() + bnd
}

/// Is the line the closing delimiter for boundary `bnd`?
pub open spec fn is_close(l: Seq<u8>, bnd: Seq<u8>) -> bool {
    trim(l) == dashdash() + bnd + dashdash()
}

/// Is the line any boundary marker?
pub open spec fn is_mark(l: Seq<u8>, bnd: Seq<u8>) -> bool {
    is_delim(l, bnd) || is_close(l, bnd)
}

/// The positions of all boundary-marker lines, ascending.
pub open spec fn spec_marks(ls: Seq<Seq<u8>>, bnd: Seq<u8>) -> Seq<int> {
    Seq::new(ls.len(), |i: int| i).filter(|i: int| is_mark(ls[i], bnd))
}

/// Find the boundary-marker lines.
pub fn find_marks(ls: &Vec<Vec<u8>>, bnd: &[u8]) -> (r: Vec<usize>)
    ensures
        r@.map_values(|u: usize| u as int) == spec_marks(ls@.map_values(|v: Vec<u8>| v@), bnd@),
        forall|k: int| 0 <= k < r@.len() ==> (#[trigger] r@[k]) < ls@.len(),
        forall|k1: int, k2: int| 0 <= k1 < k2 < r@.len() ==> r@[k1] < r@[k2],
{
    let ghost lsm = ls@.map_values(|v: Vec<u8>| v@);
    let ghost idxs = Seq::new(lsm.len(), |i: int| i);
    let ghost pred = |i: int| is_mark(lsm[i], bnd@);
    let mut delim: Vec<u8> = Vec::new();
    delim.push(45);
    delim.push(45);
    let mut bv = vstd::slice::slice_to_vec(bnd);
    delim.append(&mut bv);
    proof {
        assert(delim@ =~= dashdash() + bnd@);
    }
    let mut close: Vec<u8> = vstd::slice::slice_to_vec(delim.as_slice());
    close.push(45);
    close.push(45);
    proof {
        assert(close@ =~= dashdash() + bnd@ + dashdash());
    }
    let mut r: Vec<usize> = Vec::new();
    let n: usize = ls.len();
    let mut i: usize = 0;
    proof {
        assert(idxs.take(0).filter(pred) =~= Seq::<int>::empty()) by {
            reveal(Seq::filter);
            assert(idxs.take(0) =~= Seq::<int>::empty());
        }
    }
    while i < n
        invariant
            0 <= i <= n == ls@.len(),
            lsm == ls@.map_values(|v: Vec<u8>| v@),
            idxs == Seq::new(lsm.len(), |i: int| i),
            pred == (|i: int| is_mark(lsm[i], bnd@)),
            delim@ == dashdash() + bnd@,
            close@ == dashdash() + bnd@ + dashdash(),
            r@.map_values(|u: usize| u as int) == idxs.take(i as int).filter(pred),
            forall|k: int| 0 <= k < r@.len() ==> (#[trigger] r@[k]) < i,
            forall|k1: int, k2: int| 0 <= k1 < k2 < r@.len() ==> r@[k1] < r@[k2],
        decreases n - i,
    {
        proof {
            lemma_filter_take_step(idxs, pred, i as int);
            assert(idxs[i as int] == i as int);
        }
        let t = trim_bytes(ls[i].as_slice());
        if eq_bytes(t.as_slice(), delim.as_slice()) || eq_bytes(t.as_slice(), close.as_slice()) {
            r.push(i);
            proof {
                assert(r@.map_values(|u: usize| u as int) =~= idxs.take(i as int).filter(
                    pred,
                ).push(i as int));
            }
        }
        i += 1;
    }
    proof {
        assert(idxs.take(n as int) =~= idxs);
    }
    r
}

/// The parts delimited by the marks from position `k` on: the lines
/// after each ordinary delimiter, up to the next marker or the end.
pub open spec fn parts_from(ls: Seq<Seq<u8>>, bnd: Seq<u8>, ms: Seq<int>, k: int) -> Seq<
    Seq<Seq<u8>>,
>
    decreases ms.len() - k,
{
    if k < 0 || k >= ms.len() {
        Seq::<Seq<Seq<u8>>>::empty()
    } else {
        let e = if k + 1 < ms.len() {
            ms[k + 1]
        } else {
            ls.len() as int
        };
        let rest = parts_from(ls, bnd, ms, k + 1);
        if is_delim(ls[ms[k]], bnd) {
            seq![ls.subrange(ms[k] + 1, e)] + rest
        } else {
            rest
        }
    }
}

/// All parts of a multipart body for boundary `bnd`.
pub open spec fn spec_parts(ls: Seq<Seq<u8>>, bnd: Seq<u8>) -> Seq<Seq<Seq<u8>>> {
    parts_from(ls, bnd, spec_marks(ls, bnd), 0)
}

/// Split a multipart body's lines into its parts.
pub fn split_parts(ls: &Vec<Vec<u8>>, bnd: &[u8]) -> (r: Vec<Vec<Vec<u8>>>)
    ensures
        r@.map_values(|p: Vec<Vec<u8>>| p@.map_values(|l: Vec<u8>| l@)) == spec_parts(
            ls@.map_values(|v: Vec<u8>| v@),
            bnd@,
        ),
{
    let ghost lsm = ls@.map_values(|v: Vec<u8>| v@);
    let ghost ms = spec_marks(lsm, bnd@);
    let marks = find_marks(ls, bnd);
    let ghost mm = marks@.map_values(|u: usize| u as int);
    let mut delim: Vec<u8> = Vec::new();
    delim.push(45);
    delim.push(45);
    let mut bv = vstd::slice::slice_to_vec(bnd);
    delim.append(&mut bv);
    proof {
        assert(delim@ =~= dashdash() + bnd@);
    }
    let mut r: Vec<Vec<Vec<u8>>> = Vec::new();
    let n: usize = ls.len();
    let nm: usize = marks.len();
    let mut k: usize = 0;
    while k < nm
        invariant
            0 <= k <= nm == marks@.len(),
            n == ls@.len(),
            lsm == ls@.map_values(|v: Vec<u8>| v@),
            ms == spec_marks(lsm, bnd@),
            mm == marks@.map_values(|u: usize| u as int),
            mm == ms,
            delim@ == dashdash() + bnd@,
            forall|j: int| 0 <= j < nm ==> (#[trigger] marks@[j]) < n,
            forall|j1: int, j2: int| 0 <= j1 < j2 < nm ==> marks@[j1] < marks@[j2],
            r@.map_values(|p: Vec<Vec<u8>>| p@.map_values(|l: Vec<u8>| l@)) + parts_from(
                lsm,
                bnd@,
                ms,
                k as int,
            ) == spec_parts(lsm, bnd@),
        decreases nm - k,
    {
        let mk: usize = marks[k];
        let e: usize = if k + 1 < nm {
            marks[k + 1]
        } else {
            n
        };
        let t = trim_bytes(ls[mk].as_slice());
        if eq_bytes(t.as_slice(), delim.as_slice()) {
            let mut part: Vec<Vec<u8>> = Vec::new();
            let mut j: usize = mk + 1;
            while j < e
                invariant
                    mk + 1 <= j <= e <= n == ls@.len(),
                    lsm == ls@.map_values(|v: Vec<u8>| v@),
                    part@.len() == j - mk - 1,
                    forall|x: int|
                        0 <= x < part@.len() ==> (#[trigger] part@[x])@ == lsm[mk + 1 + x],
                decreases e - j,
            {
                part.push(vstd::slice::slice_to_vec(ls[j].as_slice()));
                j += 1;
            }
            proof {
                assert(part@.map_values(|l: Vec<u8>| l@) =~= lsm.subrange(
                    mk as int + 1,
                    e as int,
                ));
            }
            r.push(part);
            proof {
                assert(is_delim(lsm[mk as int], bnd@));
                assert(r@.map_values(|p: Vec<Vec<u8>>| p@.map_values(|l: Vec<u8>| l@)) =~= r@
                    .map_values(|p: Vec<Vec<u8>>| p@.map_values(|l: Vec<u8>| l@)).drop_last()
                    .push(lsm.subrange(mk as int + 1, e as int)));
                assert(r@.map_values(|p: Vec<Vec<u8>>| p@.map_values(|l: Vec<u8>| l@))
                    + parts_from(lsm, bnd@, ms, k as int + 1) =~= spec_parts(lsm, bnd@));
            }
        } else {
            proof {
                assert(!is_delim(lsm[mk as int], bnd@));
            }
        }
        k += 1;
    }
    proof {
        assert(parts_from(lsm, bnd@, ms, nm as int) =~= Seq::<Seq<Seq<u8>>>::empty());
        assert(r@.map_values(|p: Vec<Vec<u8>>| p@.map_values(|l: Vec<u8>| l@)) =~= spec_parts(
            lsm,
            bnd@,
        ));
    }
    r
}

/// The media types `text/plain` and `text/html`.
pub open spec fn text_plain_name() -> Seq<u8> {
    seq![116u8, 101u8, 120u8, 116u8, 47u8, 112u8, 108u8, 97u8, 105u8, 110u8]
}

pub open spec fn text_html_name() -> Seq<u8> {
    seq![116u8, 101u8, 120u8, 116u8, 47u8, 104u8, 116u8, 109u8, 108u8]
}

/// The `Content-Type` value of a part's header region.
pub open spec fn part_ct(pl: Seq<Seq<u8>>) -> Seq<u8> {
    field_or_empty(hdr_of_lines(pl), h_content_type())
}

/// The media type of a part; empty when the part has no `Content-Type`.
pub open spec fn part_mime(pl: Seq<Seq<u8>>) -> Seq<u8> {
    spec_mime_type(part_ct(pl))
}

/// The transfer-encoding token of a part, trimmed.
pub open spec fn part_cte(pl: Seq<Seq<u8>>) -> Seq<u8> {
    trim(field_or_empty(hdr_of_lines(pl), h_cte()))
}

/// Bytes decoded according to a transfer-encoding token: base64 and
/// quoted-printable decode, anything else passes through.
pub open spec fn decode_by_cte(cte: Seq<u8>, raw: Seq<u8>) -> Seq<u8> {
    if eq_ignore_case_seq(cte, b64_name()) {
        b64_decode(raw)
    } else if eq_ignore_case_seq(cte, qp_name()) {
        qp_decode(raw)
    } else {
        raw
    }
}

/// The decoded content bytes of a part.
pub open spec fn part_content(pl: Seq<Seq<u8>>) -> Seq<u8> {
    decode_by_cte(part_cte(pl), join_nl(body_of_lines(pl)))
}

/// Is the part an attachment: its `Content-Disposition` starts with
/// `attachment`?
pub open spec fn part_is_attachment(pl: Seq<Seq<u8>>) -> bool {
    starts_with_ci(
        trim(field_or_empty(hdr_of_lines(pl), h_cd())),
        crate::index::attachment_marker(),
    )
}

/// The file name of an attachment part: the disposition's `filename`
/// parameter, else the content type's `name` parameter, else empty.
pub open spec fn part_filename(pl: Seq<Seq<u8>>) -> Seq<u8> {
    match param_of(field_or_empty(hdr_of_lines(pl), h_cd()), filename_key()) {
        Some(f) => f,
        None => match param_of(part_ct(pl), name_key()) {
            Some(f) => f,
            None => Seq::<u8>::empty(),
        },
    }
}

/// Is the part body text to show inline?
pub open spec fn is_text_part(pl: Seq<Seq<u8>>) -> bool {
    eq_ignore_case_seq(part_mime(pl), text_plain_name()) && !part_is_attachment(pl)
}

/// Is the part inline HTML?
pub open spec fn is_html_part(pl: Seq<Seq<u8>>) -> bool {
    eq_ignore_case_seq(part_mime(pl), text_html_name()) && !part_is_attachment(pl)
}

/// Index of the first inline text part at or after `k`.
pub open spec fn first_text_from(parts: Seq<Seq<Seq<u8>>>, k: int) -> Option<int>
    decreases parts.len() - k,
{
    if k < 0 || k >= parts.len() {
        None
    } else if is_text_part(parts[k]) {
        Some(k)
    } else {
        first_text_from(parts, k + 1)
    }
}

/// Index of the first inline HTML part at or after `k`.
pub open spec fn first_html_from(parts: Seq<Seq<Seq<u8>>>, k: int) -> Option<int>
    decreases parts.len() - k,
{
    if k < 0 || k >= parts.len() {
        None
    } else if is_html_part(parts[k]) {
        Some(k)
    } else {
        first_html_from(parts, k + 1)
    }
}

/// The attachment descriptions of the parts from `k` on: file name,
/// media type, decoded size, and position in the part list.
pub open spec fn atts_from(parts: Seq<Seq<Seq<u8>>>, k: int) -> Seq<(Seq<u8>, Seq<u8>, int, int)>
    decreases parts.len() - k,
{
    if k < 0 || k >= parts.len() {
        Seq::<(Seq<u8>, Seq<u8>, int, int)>::empty()
    } else {
        let rest = atts_from(parts, k + 1);
        if part_is_attachment(parts[k]) {
            seq![
                (part_filename(parts[k]), part_mime(parts[k]), part_content(parts[k]).len() as int, k),
            ] + rest
        } else {
            rest
        }
    }
}

/// Every attachment description points back at an attachment part in
/// range, and its size is that part's decoded length.
pub proof fn lemma_atts_from(parts: Seq<Seq<Seq<u8>>>, k: int)
    ensures
        forall|j: int|
            0 <= j < atts_from(parts, k).len() ==> {
                let a = #[trigger] atts_from(parts, k)[j];
                &&& k <= a.3 < parts.len()
                &&& part_is_attachment(parts[a.3])
                &&& a.0 == part_filename(parts[a.3])
                &&& a.1 == part_mime(parts[a.3])
                &&& a.2 == part_content(parts[a.3]).len()
            },
    decreases parts.len() - k,
{
    if k < 0 || k >= parts.len() {
    } else {
        lemma_atts_from(parts, k + 1);
        let cur = atts_from(parts, k);
        let rest = atts_from(parts, k + 1);
        if part_is_attachment(parts[k]) {
            assert forall|j: int| 0 <= j < cur.len() implies {
                let a = #[trigger] cur[j];
                &&& k <= a.3 < parts.len()
                &&& part_is_attachment(parts[a.3])
                &&& a.0 == part_filename(parts[a.3])
                &&& a.1 == part_mime(parts[a.3])
                &&& a.2 == part_content(parts[a.3]).len()
            } by {
                if j > 0 {
                    assert(cur[j] == rest[j - 1]);
                }
            }
        } else {
            assert(cur == rest);
        }
    }
}

/// The message's own header region, content type, and boundary.
pub open spec fn msg_hdr(msg: Seq<u8>) -> Seq<Seq<u8>> {
    crate::headers::header_lines_of(msg)
}

pub open spec fn msg_ct(msg: Seq<u8>) -> Seq<u8> {
    field_or_empty(msg_hdr(msg), h_content_type())
}

/// The multipart boundary, when the message is multipart and names one.
pub open spec fn msg_boundary(msg: Seq<u8>) -> Option<Seq<u8>> {
    if starts_with_ci(spec_mime_type(msg_ct(msg)), multipart_prefix()) {
        param_of(msg_ct(msg), boundary_key())
    } else {
        None
    }
}

/// The parts of a multipart message; empty for a single-part message.
pub open spec fn msg_parts(msg: Seq<u8>) -> Seq<Seq<Seq<u8>>> {
    match msg_boundary(msg) {
        Some(b) => spec_parts(crate::headers::body_lines_of(msg), b),
        None => Seq::<Seq<Seq<u8>>>::empty(),
    }
}

/// The decoded body of a single-part message.
pub open spec fn single_content(msg: Seq<u8>) -> Seq<u8> {
    decode_by_cte(
        trim(field_or_empty(msg_hdr(msg), h_cte())),
        join_nl(crate::headers::body_lines_of(msg)),
    )
}

/// The inline text of a message: the first `text/plain` part of a
/// multipart, or the whole decoded body unless the message itself is
/// HTML.
pub open spec fn spec_text_of(msg: Seq<u8>) -> Option<Seq<u8>> {
    match msg_boundary(msg) {
        Some(_) => match first_text_from(msg_parts(msg), 0) {
            Some(k) => Some(part_content(msg_parts(msg)[k])),
            None => None,
        },
        None => if eq_ignore_case_seq(spec_mime_type(msg_ct(msg)), text_html_name()) {
            None
        } else {
            Some(single_content(msg))
        },
    }
}

/// The inline HTML of a message, mirroring [`spec_text_of`].
pub open spec fn spec_html_of(msg: Seq<u8>) -> Option<Seq<u8>> {
    match msg_boundary(msg) {
        Some(_) => match first_html_from(msg_parts(msg), 0) {
            Some(k) => Some(part_content(msg_parts(msg)[k])),
            None => None,
        },
        None => if eq_ignore_case_seq(spec_mime_type(msg_ct(msg)), text_html_name()) {
            Some(single_content(msg))
        } else {
            None
        },
    }
}

/// The raw header block, joined with newlines.
pub open spec fn spec_raw_headers(msg: Seq<u8>) -> Seq<u8> {
    join_nl(msg_hdr(msg))
}

/// The attachment descriptions of a message.
pub open spec fn spec_attachments(msg: Seq<u8>) -> Seq<(Seq<u8>, Seq<u8>, int, int)> {
    atts_from(msg_parts(msg), 0)
}

/// One attachment's metadata as parsed from a message span.
pub struct AttachmentMeta {
    pub filename: Vec<u8>,
    pub content_type: Vec<u8>,
    pub size: usize,
    pub part_index: usize,
}

/// A fully parsed message body, fields as raw bytes.
pub struct MailBody {
    pub text: Option<Vec<u8>>,
    pub html: Option<Vec<u8>>,
    pub raw_headers: Vec<u8>,
    pub attachments: Vec<AttachmentMeta>,
}

/// Do the parsed attachment records render the spec-level list?
pub open spec fn atts_match(v: Seq<AttachmentMeta>, l: Seq<(Seq<u8>, Seq<u8>, int, int)>) -> bool {
    &&& v.len() == l.len()
    &&& forall|i: int|
        0 <= i < l.len() ==> {
            let a = #[trigger] v[i];
            a.filename@ == l[i].0 && a.content_type@ == l[i].1 && a.size == l[i].2
                && a.part_index == l[i].3
        }
}

/// Does the parsed body hold exactly what the span's bytes say?
pub open spec fn body_matches(mb: MailBody, msg: Seq<u8>) -> bool {
    &&& match mb.text {
        Some(t) => spec_text_of(msg) == Some(t@),
        None => spec_text_of(msg) is None,
    }
    &&& match mb.html {
        Some(h) => spec_html_of(msg) == Some(h@),
        None => spec_html_of(msg) is None,
    }
    &&& mb.raw_headers@ == spec_raw_headers(msg)
    &&& atts_match(mb.attachments@, spec_attachments(msg))
}

/// The attachment records as spec-level tuples.
pub open spec fn atts_tuples(v: Seq<AttachmentMeta>) -> Seq<(Seq<u8>, Seq<u8>, int, int)> {
    v.map_values(|a: AttachmentMeta| (a.filename@, a.content_type@, a.size as int, a.part_index as int))
}

/// Decode content bytes according to a transfer-encoding token.
pub fn decode_content(cte: &[u8], raw: &[u8]) -> (r: Vec<u8>)
    ensures
        r@ == decode_by_cte(cte@, raw@),
{
    let b64n: [u8; 6] = [98, 97, 115, 101, 54, 52];
    let qpn: [u8; 16] = [113, 117, 111, 116, 101, 100, 45, 112, 114, 105, 110, 116, 97, 98, 108,
        101];
    proof {
        assert(b64n@ =~= b64_name());
        assert(qpn@ =~= qp_name());
    }
    if eq_ignore_case(cte, b64n.as_slice()) {
        b64_decode_bytes(raw)
    } else if eq_ignore_case(cte, qpn.as_slice()) {
        qp_decode_bytes(raw)
    } else {
        vstd::slice::slice_to_vec(raw)
    }
}

/// Read one part: its media type, whether it is an attachment, its file
/// name, and its decoded content.
pub fn part_info(part: &Vec<Vec<u8>>) -> (r: (Vec<u8>, bool, Vec<u8>, Vec<u8>))
    ensures
        r.0@ == part_mime(part@.map_values(|l: Vec<u8>| l@)),
        r.1 == part_is_attachment(part@.map_values(|l: Vec<u8>| l@)),
        r.2@ == part_filename(part@.map_values(|l: Vec<u8>| l@)),
        r.3@ == part_content(part@.map_values(|l: Vec<u8>| l@)),
{
    let ghost pl = part@.map_values(|l: Vec<u8>| l@);
    let (hdr, body) = split_region(part);
    let ctn: [u8; 12] = [99, 111, 110, 116, 101, 110, 116, 45, 116, 121, 112, 101];
    let cdn: [u8; 19] = [99, 111, 110, 116, 101, 110, 116, 45, 100, 105, 115, 112, 111, 115, 105,
        116, 105, 111, 110];
    let cten: [u8; 25] = [99, 111, 110, 116, 101, 110, 116, 45, 116, 114, 97, 110, 115, 102, 101,
        114, 45, 101, 110, 99, 111, 100, 105, 110, 103];
    let attn: [u8; 10] = [97, 116, 116, 97, 99, 104, 109, 101, 110, 116];
    let fnk: [u8; 8] = [102, 105, 108, 101, 110, 97, 109, 101];
    let nmk: [u8; 4] = [110, 97, 109, 101];
    proof {
        assert(ctn@ =~= h_content_type());
        assert(cdn@ =~= h_cd());
        assert(cten@ =~= h_cte());
        assert(attn@ =~= crate::index::attachment_marker());
        assert(fnk@ =~= filename_key());
        assert(nmk@ =~= name_key());
    }
    let ctv: Vec<u8> = match get_header(&hdr, ctn.as_slice()) {
        Some(v) => v,
        None => Vec::new(),
    };
    proof {
        assert(ctv@ =~= part_ct(pl));
    }
    let mime = mime_type_of(ctv.as_slice());
    let cdv: Vec<u8> = match get_header(&hdr, cdn.as_slice()) {
        Some(v) => v,
        None => Vec::new(),
    };
    proof {
        assert(cdv@ =~= field_or_empty(hdr_of_lines(pl), h_cd()));
    }
    let cdt = trim_bytes(cdv.as_slice());
    let is_att = starts_with_ci_bytes(cdt.as_slice(), attn.as_slice());
    let filename: Vec<u8> = match get_param(cdv.as_slice(), fnk.as_slice()) {
        Some(f) => f,
        None => match get_param(ctv.as_slice(), nmk.as_slice()) {
            Some(f) => f,
            None => Vec::new(),
        },
    };
    let ctev: Vec<u8> = match get_header(&hdr, cten.as_slice()) {
        Some(v) => v,
        None => Vec::new(),
    };
    proof {
        assert(ctev@ =~= field_or_empty(hdr_of_lines(pl), h_cte()));
    }
    let ctet = trim_bytes(ctev.as_slice());
    let raw = join_lines(&body);
    let content = decode_content(ctet.as_slice(), raw.as_slice());
    (mime, is_att, filename, content)
}

/// Parse one message span into a full body.  The parse is total: any
/// span yields a body, malformed pieces decoding to a best effort.
pub fn parse_message(msg: &[u8]) -> (mb: MailBody)
    ensures
        body_matches(mb, msg@),
{
    let (hdr, body) = crate::headers::split_message(msg);
    let raw_headers = join_lines(&hdr);
    let ctn: [u8; 12] = [99, 111, 110, 116, 101, 110, 116, 45, 116, 121, 112, 101];
    let cten: [u8; 25] = [99, 111, 110, 116, 101, 110, 116, 45, 116, 114, 97, 110, 115, 102, 101,
        114, 45, 101, 110, 99, 111, 100, 105, 110, 103];
    let mpn: [u8; 10] = [109, 117, 108, 116, 105, 112, 97, 114, 116, 47];
    let bkn: [u8; 8] = [98, 111, 117, 110, 100, 97, 114, 121];
    let tpn: [u8; 10] = [116, 101, 120, 116, 47, 112, 108, 97, 105, 110];
    let thn: [u8; 9] = [116, 101, 120, 116, 47, 104, 116, 109, 108];
    proof {
        assert(ctn@ =~= h_content_type());
        assert(cten@ =~= h_cte());
        assert(mpn@ =~= multipart_prefix());
        assert(bkn@ =~= boundary_key());
        assert(tpn@ =~= text_plain_name());
        assert(thn@ =~= text_html_name());
    }
    let ctv: Vec<u8> = match get_header(&hdr, ctn.as_slice()) {
        Some(v) => v,
        None => Vec::new(),
    };
    proof {
        assert(ctv@ =~= msg_ct(msg@));
    }
    let mt = mime_type_of(ctv.as_slice());
    let bnd_opt: Option<Vec<u8>> = if starts_with_ci_bytes(mt.as_slice(), mpn.as_slice()) {
        get_param(ctv.as_slice(), bkn.as_slice())
    } else {
        None
    };
    match bnd_opt {
        Some(bnd) => {
            proof {
                assert(msg_boundary(msg@) == Some(bnd@));
            }
            let parts = split_parts(&body, bnd.as_slice());
            let ghost pm = parts@.map_values(|p: Vec<Vec<u8>>| p@.map_values(|l: Vec<u8>| l@));
            proof {
                assert(pm == msg_parts(msg@));
            }
            let np: usize = parts.len();
            let mut text: Option<Vec<u8>> = None;
            let mut html: Option<Vec<u8>> = None;
            let mut atts: Vec<AttachmentMeta> = Vec::new();
            let mut k: usize = 0;
            proof {
                assert(atts_tuples(atts@) + atts_from(pm, 0) =~= atts_from(pm, 0));
            }
            while k < np
                invariant
                    0 <= k <= np == parts@.len(),
                    tpn@ == text_plain_name(),
                    thn@ == text_html_name(),
                    pm == parts@.map_values(
                        |p: Vec<Vec<u8>>| p@.map_values(|l: Vec<u8>| l@),
                    ),
                    match text {
                        Some(t) => first_text_from(pm, 0) matches Some(k0) && t@
                            == part_content(pm[k0]),
                        None => first_text_from(pm, 0) == first_text_from(pm, k as int),
                    },
                    match html {
                        Some(h) => first_html_from(pm, 0) matches Some(k0) && h@
                            == part_content(pm[k0]),
                        None => first_html_from(pm, 0) == first_html_from(pm, k as int),
                    },
                    atts_tuples(atts@) + atts_from(pm, k as int) == atts_from(pm, 0),
                decreases np - k,
            {
                let info = part_info(&parts[k]);
                proof {
                    assert(parts@[k as int]@.map_values(|l: Vec<u8>| l@) == pm[k as int]);
                }
                let (mime, is_att, filename, content) = info;
                let is_text = eq_ignore_case(mime.as_slice(), tpn.as_slice()) && !is_att;
                let is_html = eq_ignore_case(mime.as_slice(), thn.as_slice()) && !is_att;
                if is_att {
                    let meta = AttachmentMeta {
                        filename,
                        content_type: mime,
                        size: content.len(),
                        part_index: k,
                    };
                    let ghost before = atts@;
                    let ghost tup = (
                        meta.filename@,
                        meta.content_type@,
                        meta.size as int,
                        meta.part_index as int,
                    );
                    atts.push(meta);
                    proof {
                        assert(atts_tuples(atts@) =~= atts_tuples(before).push(tup));
                        assert(atts_from(pm, k as int) == seq![
                            (
                                part_filename(pm[k as int]),
                                part_mime(pm[k as int]),
                                part_content(pm[k as int]).len() as int,
                                k as int,
                            ),
                        ] + atts_from(pm, k as int + 1));
                        assert(atts_tuples(atts@) + atts_from(pm, k as int + 1) =~= atts_from(
                            pm,
                            0,
                        ));
                    }
                } else {
                    if text.is_none() && is_text {
                        text = Some(content);
                    } else if html.is_none() && is_html {
                        html = Some(content);
                    }
                }
                proof {
                    let ki = k as int;
                    assert(is_text == is_text_part(pm[ki]));
                    assert(is_html == is_html_part(pm[ki]));
                    if is_text && is_html {
                        assert(crate::text::lower_seq(part_mime(pm[ki])).len()
                            == crate::text::lower_seq(text_plain_name()).len());
                        assert(crate::text::lower_seq(part_mime(pm[ki])).len()
                            == crate::text::lower_seq(text_html_name()).len());
                        assert(false);
                    }
                    if is_text_part(pm[ki]) {
                        assert(first_text_from(pm, ki) == Some(ki));
                    } else {
                        assert(first_text_from(pm, ki) == first_text_from(pm, ki + 1));
                    }
                    if is_html_part(pm[ki]) {
                        assert(first_html_from(pm, ki) == Some(ki));
                    } else {
                        assert(first_html_from(pm, ki) == first_html_from(pm, ki + 1));
                    }
                }
                k += 1;
            }
            MailBody { text, html, raw_headers, attachments: atts }
        },
        None => {
            proof {
                assert(msg_boundary(msg@) is None);
                assert(msg_parts(msg@) =~= Seq::<Seq<Seq<u8>>>::empty());
                assert(spec_attachments(msg@) =~= Seq::<(Seq<u8>, Seq<u8>, int, int)>::empty());
            }
            let ctev: Vec<u8> = match get_header(&hdr, cten.as_slice()) {
                Some(v) => v,
                None => Vec::new(),
            };
            proof {
                assert(ctev@ =~= field_or_empty(msg_hdr(msg@), h_cte()));
            }
            let ctet = trim_bytes(ctev.as_slice());
            let raw = join_lines(&body);
            let content = decode_content(ctet.as_slice(), raw.as_slice());
            let is_html = eq_ignore_case(mt.as_slice(), thn.as_slice());
            let (text, html): (Option<Vec<u8>>, Option<Vec<u8>>) = if is_html {
                (None, Some(content))
            } else {
                (Some(content), None)
            };
            proof {
                assert(atts_match(Seq::<AttachmentMeta>::empty(), spec_attachments(msg@)));
            }
            MailBody { text, html, raw_headers, attachments: Vec::new() }
        },
    }
}

/// The decoded content of part `pi` of a message span, when such a part
/// exists.
pub fn get_part_content(msg: &[u8], pi: usize) -> (r: Option<Vec<u8>>)
    ensures
        match r {
            Some(v) => msg_boundary(msg@) is Some && pi < msg_parts(msg@).len() && v@
                == part_content(msg_parts(msg@)[pi as int]),
            None => msg_boundary(msg@) is None || pi >= msg_parts(msg@).len(),
        },
{
    let (hdr, body) = crate::headers::split_message(msg);
    let ctn: [u8; 12] = [99, 111, 110, 116, 101, 110, 116, 45, 116, 121, 112, 101];
    let mpn: [u8; 10] = [109, 117, 108, 116, 105, 112, 97, 114, 116, 47];
    let bkn: [u8; 8] = [98, 111, 117, 110, 100, 97, 114, 121];
    proof {
        assert(ctn@ =~= h_content_type());
        assert(mpn@ =~= multipart_prefix());
        assert(bkn@ =~= boundary_key());
    }
    let ctv: Vec<u8> = match get_header(&hdr, ctn.as_slice()) {
        Some(v) => v,
        None => Vec::new(),
    };
    proof {
        assert(ctv@ =~= msg_ct(msg@));
    }
    let mt = mime_type_of(ctv.as_slice());
    if !starts_with_ci_bytes(mt.as_slice(), mpn.as_slice()) {
        return None;
    }
    match get_param(ctv.as_slice(), bkn.as_slice()) {
        Some(bnd) => {
            proof {
                assert(msg_boundary(msg@) == Some(bnd@));
            }
            let parts = split_parts(&body, bnd.as_slice());
            let ghost pm = parts@.map_values(|p: Vec<Vec<u8>>| p@.map_values(|l: Vec<u8>| l@));
            proof {
                assert(pm == msg_parts(msg@));
            }
            if pi < parts.len() {
                let info = part_info(&parts[pi]);
                proof {
                    assert(parts@[pi as int]@.map_values(|l: Vec<u8>| l@) == pm[pi as int]);
                }
                Some(info.3)
            } else {
                None
            }
        },
        None => None,
    }
}

} // verus!
