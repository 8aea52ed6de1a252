//! Byte-level text utilities: ASCII case folding, searching, trimming
//! and splitting, plus the one trusted bridge from bytes to `String`.
//!
//! All parsing in this crate works on raw bytes, because message offsets
//! are byte offsets and mail data need not be valid UTF-8.  Strings are
//! produced only at the edge, for the records handed back to callers.

use vstd::prelude::*;

verus! {

/// ASCII lower-casing of a single byte; other bytes are unchanged.
pub open spec fn lower_byte(b: u8) -> u8 {
    if 65 <= b <= 90 {
        (b + 32) as u8
    } else {
        b
    }
}

/// ASCII lower-casing of a byte sequence.
pub open spec fn lower_seq(s: Seq<u8>) -> Seq<u8> {
    s.map_values(|b: u8| lower_byte(b))
}

/// Do two byte sequences agree up to ASCII case?
pub open spec fn eq_ignore_case_seq(a: Seq<u8>, b: Seq<u8>) -> bool {
    lower_seq(a) == lower_seq(b)
}

/// Exec ASCII lower-casing of one byte.
pub fn to_lower(b: u8) -> (r: u8)
    ensures
        r == lower_byte(b),
{
    if 65 <= b && b <= 90 {
        b + 32
    } else {
        b
    }
}

/// Is the byte an ASCII decimal digit?
pub open spec fn is_digit(b: u8) -> bool {
    48 <= b <= 57
}

/// Is the byte ASCII whitespace (space, tab, carriage return, newline)?
pub open spec fn is_ws(b: u8) -> bool {
    b == 32 || b == 9 || b == 13 || b == 10
}

/// Does `s` start with `p`, byte for byte?
pub open spec fn starts_with(s: Seq<u8>, p: Seq<u8>) -> bool {
    s.len() >= p.len() && s.subrange(0, p.len() as int) == p
}

/// Case-insensitive equality of two byte slices.
pub fn eq_ignore_case(a: &[u8], b: &[u8]) -> (r: bool)
    ensures
        r == eq_ignore_case_seq(a@, b@),
{
    if a.len() != b.len() {
        assert(lower_seq(a@).len() != lower_seq(b@).len());
        return false;
    }
    let n: usize = a.len();
    let mut i: usize = 0;
    while i < n
        invariant
            n == a@.len() == b@.len(),
            0 <= i <= n,
            forall|j: int| 0 <= j < i ==> lower_byte(a@[j]) == lower_byte(b@[j]),
        decreases n - i,
    {
        if to_lower(a[i]) != to_lower(b[i]) {
            assert(lower_seq(a@)[i as int] != lower_seq(b@)[i as int]);
            return false;
        }
        i += 1;
    }
    assert(lower_seq(a@) =~= lower_seq(b@));
    true
}

/// Exec check that `s` starts with `p`.
pub fn starts_with_bytes(s: &[u8], p: &[u8]) -> (r: bool)
    ensures
        r == starts_with(s@, p@),
{
    if s.len() < p.len() {
        return false;
    }
    let n: usize = p.len();
    let mut i: usize = 0;
    while i < n
        invariant
            n == p@.len() <= s@.len(),
            0 <= i <= n,
            forall|j: int| 0 <= j < i ==> s@[j] == p@[j],
        decreases n - i,
    {
        if s[i] != p[i] {
            assert(s@.subrange(0, n as int)[i as int] != p@[i as int]);
            return false;
        }
        i += 1;
    }
    assert(s@.subrange(0, n as int) =~= p@);
    true
}

/// First occurrence of byte `b` in `s` at or after position `from`.
pub fn find_byte(s: &[u8], from: usize, b: u8) -> (r: Option<usize>)
    requires
        from <= s@.len(),
    ensures
        match r {
            Some(i) => from <= i < s@.len() && s@[i as int] == b && forall|j: int|
                from <= j < i ==> s@[j] != b,
            None => forall|j: int| from <= j < s@.len() ==> s@[j] != b,
        },
{
    let n: usize = s.len();
    let mut i: usize = from;
    while i < n
        invariant
            from <= i <= n == s@.len(),
            forall|j: int| from <= j < i ==> s@[j] != b,
        decreases n - i,
    {
        if s[i] == b {
            return Some(i);
        }
        i += 1;
    }
    None
}

/// Index of the first occurrence of `b` in `s`.
pub open spec fn spec_find(s: Seq<u8>, b: u8) -> Option<int>
    decreases s.len(),
{
    if s.len() == 0 {
        None
    } else if s[0] == b {
        Some(0int)
    } else {
        match spec_find(s.drop_first(), b) {
            Some(i) => Some(i + 1),
            None => None,
        }
    }
}

pub proof fn lemma_spec_find_at(s: Seq<u8>, b: u8, k: int)
    requires
        0 <= k <= s.len(),
        forall|j: int| 0 <= j < k ==> s[j] != b,
        k == s.len() || s[k] == b,
    ensures
        spec_find(s, b) == if k == s.len() {
            None::<int>
        } else {
            Some(k)
        },
    decreases k,
{
    if k == 0 {
    } else {
        let t = s.drop_first();
        assert(forall|j: int| 0 <= j < k - 1 ==> t[j] != b);
        lemma_spec_find_at(t, b, k - 1);
    }
}

/// A found index is in range and holds the byte.
pub proof fn lemma_spec_find_props(s: Seq<u8>, b: u8)
    requires
        spec_find(s, b) is Some,
    ensures
        ({
            let i = spec_find(s, b)->Some_0;
            0 <= i < s.len() && s[i] == b
        }),
    decreases s.len(),
{
    if s.len() > 0 && s[0] != b {
        lemma_spec_find_props(s.drop_first(), b);
    }
}

/// First occurrence of `b` in `s`, tied to [`spec_find`].
pub fn find_first(s: &[u8], b: u8) -> (r: Option<usize>)
    ensures
        match r {
            Some(i) => spec_find(s@, b) == Some(i as int) && i < s@.len() && s@[i as int] == b
                && forall|j: int| 0 <= j < i ==> s@[j] != b,
            None => spec_find(s@, b) is None && forall|j: int| 0 <= j < s@.len() ==> s@[j] != b,
        },
{
    match find_byte(s, 0, b) {
        Some(i) => {
            proof {
                lemma_spec_find_at(s@, b, i as int);
            }
            Some(i)
        },
        None => {
            proof {
                lemma_spec_find_at(s@, b, s@.len() as int);
            }
            None
        },
    }
}

/// Does the lower-cased `n` occur contiguously inside the lower-cased `h`?
pub open spec fn contains_ci(h: Seq<u8>, n: Seq<u8>) -> bool {
    exists|i: int|
        0 <= i && i + n.len() <= h.len() && eq_ignore_case_seq(
            #[trigger] h.subrange(i, i + n.len() as int),
            n,
        )
}

/// Case-insensitive substring search.
pub fn contains_ci_bytes(h: &[u8], n: &[u8]) -> (r: bool)
    ensures
        r == contains_ci(h@, n@),
{
    let m: usize = n.len();
    if m > h.len() {
        return false;
    }
    if m == 0 {
        assert(contains_ci(h@, n@)) by {
            assert(eq_ignore_case_seq(h@.subrange(0, 0 + n@.len() as int), n@)) by {
                assert(lower_seq(h@.subrange(0, 0)) =~= lower_seq(n@));
            }
        }
        return true;
    }
    let hlen: usize = h.len();
    let last: usize = hlen - m;
    let mut i: usize = 0;
    while i <= last
        invariant
            1 <= m == n@.len(),
            hlen == h@.len(),
            last == hlen - m,
            0 <= i <= last + 1,
            forall|j: int|
                0 <= j < i ==> !eq_ignore_case_seq(#[trigger] h@.subrange(j, j + m as int), n@),
        decreases last + 1 - i,
    {
        let piece = vstd::slice::slice_subrange(h, i, i + m);
        if eq_ignore_case(piece, n) {
            return true;
        }
        i += 1;
    }
    false
}

/// Does `n` occur contiguously inside `h`, byte for byte?
pub open spec fn contains_sub(h: Seq<u8>, n: Seq<u8>) -> bool {
    exists|p: int|
        0 <= p && p + n.len() <= h.len() && #[trigger] h.subrange(p, p + n.len() as int) == n
}

/// Containment composes: a piece of a piece of `h` is a piece of `h`.
pub proof fn lemma_contains_sub_trans(h: Seq<u8>, m: Seq<u8>, n: Seq<u8>)
    requires
        contains_sub(h, m),
        contains_sub(m, n),
    ensures
        contains_sub(h, n),
{
    let p = choose|p: int|
        0 <= p && p + m.len() <= h.len() && #[trigger] h.subrange(p, p + m.len() as int) == m;
    let q = choose|q: int|
        0 <= q && q + n.len() <= m.len() && #[trigger] m.subrange(q, q + n.len() as int) == n;
    assert(h.subrange(p + q, p + q + n.len() as int) =~= n);
}

/// Does `s` start with `p` up to ASCII case?
pub open spec fn starts_with_ci(s: Seq<u8>, p: Seq<u8>) -> bool {
    s.len() >= p.len() && eq_ignore_case_seq(s.subrange(0, p.len() as int), p)
}

/// Exec case-insensitive prefix test.
pub fn starts_with_ci_bytes(s: &[u8], p: &[u8]) -> (r: bool)
    ensures
        r == starts_with_ci(s@, p@),
{
    if s.len() < p.len() {
        return false;
    }
    let head = vstd::slice::slice_subrange(s, 0, p.len());
    eq_ignore_case(head, p)
}

/// Exact equality of two byte slices.
pub fn eq_bytes(a: &[u8], b: &[u8]) -> (r: bool)
    ensures
        r == (a@ == b@),
{
    if a.len() != b.len() {
        return false;
    }
    let n: usize = a.len();
    let mut i: usize = 0;
    while i < n
        invariant
            n == a@.len() == b@.len(),
            0 <= i <= n,
            forall|j: int| 0 <= j < i ==> a@[j] == b@[j],
        decreases n - i,
    {
        if a[i] != b[i] {
            return false;
        }
        i += 1;
    }
    assert(a@ =~= b@);
    true
}

/// The sequence with leading whitespace removed.
pub open spec fn trim_start(s: Seq<u8>) -> Seq<u8>
    decreases s.len(),
{
    if s.len() > 0 && is_ws(s[0]) {
        trim_start(s.drop_first())
    } else {
        s
    }
}

/// The sequence with trailing whitespace removed.
pub open spec fn trim_end(s: Seq<u8>) -> Seq<u8>
    decreases s.len(),
{
    if s.len() > 0 && is_ws(s.last()) {
        trim_end(s.drop_last())
    } else {
        s
    }
}

/// The sequence with whitespace removed from both ends.
pub open spec fn trim(s: Seq<u8>) -> Seq<u8> {
    trim_end(trim_start(s))
}

proof fn lemma_trim_start_at(s: Seq<u8>, k: int)
    requires
        0 <= k <= s.len(),
        forall|j: int| 0 <= j < k ==> is_ws(s[j]),
        k == s.len() || !is_ws(s[k]),
    ensures
        trim_start(s) == s.subrange(k, s.len() as int),
    decreases k,
{
    if k == 0 {
        assert(s.subrange(0, s.len() as int) =~= s);
    } else {
        let t = s.drop_first();
        lemma_trim_start_at(t, k - 1);
        assert(t.subrange(k - 1, t.len() as int) =~= s.subrange(k, s.len() as int));
    }
}

proof fn lemma_trim_end_at(s: Seq<u8>, k: int)
    requires
        0 <= k <= s.len(),
        forall|j: int| k <= j < s.len() ==> is_ws(s[j]),
        k == 0 || !is_ws(s[k - 1]),
    ensures
        trim_end(s) == s.subrange(0, k),
    decreases s.len() - k,
{
    if k == s.len() {
        assert(s.subrange(0, k) =~= s);
    } else {
        let t = s.drop_last();
        lemma_trim_end_at(t, k);
        assert(t.subrange(0, k) =~= s.subrange(0, k));
    }
}

/// Trimming leaves a contiguous piece of the sequence.
pub proof fn lemma_trim_is_sub(s: Seq<u8>)
    ensures
        contains_sub(s, trim(s)),
{
    lemma_trim_start_is_suffix(s);
    let t = trim_start(s);
    let a = s.len() - t.len();
    lemma_trim_end_is_prefix(t);
    let r = trim(s);
    assert(r == t.take(r.len() as int));
    assert(s.subrange(a, a + r.len() as int) =~= r) by {
        assert(forall|j: int| 0 <= j < r.len() ==> s.subrange(a, s.len() as int)[j] == t[j]);
    }
}

proof fn lemma_trim_start_is_suffix(s: Seq<u8>)
    ensures
        trim_start(s).len() <= s.len(),
        trim_start(s) == s.subrange(s.len() - trim_start(s).len(), s.len() as int),
    decreases s.len(),
{
    if s.len() > 0 && is_ws(s[0]) {
        let t = s.drop_first();
        lemma_trim_start_is_suffix(t);
        assert(t.subrange(t.len() - trim_start(t).len(), t.len() as int) =~= s.subrange(
            s.len() - trim_start(s).len(),
            s.len() as int,
        ));
    } else {
        assert(s.subrange(0, s.len() as int) =~= s);
    }
}

proof fn lemma_trim_end_is_prefix(s: Seq<u8>)
    ensures
        trim_end(s).len() <= s.len(),
        trim_end(s) == s.take(trim_end(s).len() as int),
    decreases s.len(),
{
    if s.len() > 0 && is_ws(s.last()) {
        let t = s.drop_last();
        lemma_trim_end_is_prefix(t);
        assert(t.take(trim_end(t).len() as int) =~= s.take(trim_end(s).len() as int));
    } else {
        assert(s.take(s.len() as int) =~= s);
    }
}

/// Copy of `s` with whitespace removed from both ends.
pub fn trim_bytes(s: &[u8]) -> (r: Vec<u8>)
    ensures
        r@ == trim(s@),
{
    let n: usize = s.len();
    let mut a: usize = 0;
    while a < n && is_ws_byte(s[a])
        invariant
            0 <= a <= n == s@.len(),
            forall|j: int| 0 <= j < a ==> is_ws(s@[j]),
        decreases n - a,
    {
        a += 1;
    }
    proof {
        lemma_trim_start_at(s@, a as int);
    }
    let mut b: usize = n;
    while b > a && is_ws_byte(s[b - 1])
        invariant
            a <= b <= n == s@.len(),
            forall|j: int| b <= j < n ==> is_ws(s@[j]),
        decreases b,
    {
        b -= 1;
    }
    let ghost mid = s@.subrange(a as int, n as int);
    proof {
        if b == a {
            lemma_trim_end_at(mid, 0);
        } else {
            lemma_trim_end_at(mid, b - a);
        }
        assert(mid.subrange(0, (b - a) as int) =~= s@.subrange(a as int, b as int));
    }
    let piece = vstd::slice::slice_subrange(s, a, b);
    vstd::slice::slice_to_vec(piece)
}

/// A value surrounded by double quotes has them removed.
pub open spec fn strip_quotes(t: Seq<u8>) -> Seq<u8> {
    if t.len() >= 2 && t[0] == 34 && t.last() == 34 {
        t.subrange(1, t.len() - 1)
    } else {
        t
    }
}

/// Exec quote stripping.
pub fn strip_quotes_vec(t: Vec<u8>) -> (r: Vec<u8>)
    ensures
        r@ == strip_quotes(t@),
{
    let n: usize = t.len();
    if n >= 2 && t[0] == 34 && t[n - 1] == 34 {
        let inner = vstd::slice::slice_subrange(t.as_slice(), 1, n - 1);
        let r = vstd::slice::slice_to_vec(inner);
        proof {
            assert(r@ =~= strip_quotes(t@));
        }
        r
    } else {
        t
    }
}

/// Exec whitespace test.
pub fn is_ws_byte(b: u8) -> (r: bool)
    ensures
        r == is_ws(b),
{
    b == 32 || b == 9 || b == 13 || b == 10
}

/// `s` divided at every occurrence of `c`, separators dropped.  There is
/// always one piece more than there are separators; an empty input gives
/// one empty piece.
pub open spec fn spec_split(s: Seq<u8>, c: u8) -> Seq<Seq<u8>>
    decreases s.len(),
{
    if s.len() == 0 {
        seq![Seq::<u8>::empty()]
    } else {
        let rest = spec_split(s.drop_first(), c);
        if s[0] == c {
            seq![Seq::<u8>::empty()] + rest
        } else {
            seq![seq![s[0]] + rest[0]] + rest.drop_first()
        }
    }
}

pub proof fn lemma_split_nonempty(s: Seq<u8>, c: u8)
    ensures
        spec_split(s, c).len() >= 1,
    decreases s.len(),
{
    if s.len() > 0 {
        lemma_split_nonempty(s.drop_first(), c);
    }
}

/// Split `s` at byte `c`.
pub fn split_bytes(s: &[u8], c: u8) -> (r: Vec<Vec<u8>>)
    ensures
        r@.map_values(|v: Vec<u8>| v@) == spec_split(s@, c),
{
    let n: usize = s.len();
    let mut r: Vec<Vec<u8>> = Vec::new();
    r.push(Vec::new());
    proof {
        assert(s@.subrange(n as int, n as int) =~= Seq::<u8>::empty());
        assert(r@.map_values(|v: Vec<u8>| v@) =~= spec_split(
            s@.subrange(n as int, n as int),
            c,
        ));
    }
    let mut i: usize = n;
    while i > 0
        invariant
            0 <= i <= n == s@.len(),
            r@.len() >= 1,
            r@.map_values(|v: Vec<u8>| v@) == spec_split(s@.subrange(i as int, n as int), c),
        decreases i,
    {
        i -= 1;
        let ghost prev = s@.subrange(i + 1, n as int);
        let ghost cur = s@.subrange(i as int, n as int);
        let ghost oldmap = r@.map_values(|v: Vec<u8>| v@);
        proof {
            assert(cur.drop_first() =~= prev);
            lemma_split_nonempty(prev, c);
        }
        if s[i] == c {
            r.insert(0, Vec::new());
            proof {
                assert(r@.map_values(|v: Vec<u8>| v@) =~= seq![Seq::<u8>::empty()] + oldmap);
            }
        } else {
            let b = s[i];
            let mut first = r.remove(0);
            first.insert(0, b);
            r.insert(0, first);
            proof {
                let rest = spec_split(prev, c);
                assert(first@ =~= seq![b] + rest[0]);
                assert(r@.map_values(|v: Vec<u8>| v@) =~= seq![seq![b] + rest[0]]
                    + rest.drop_first());
            }
        }
    }
    proof {
        assert(s@.subrange(0, n as int) =~= s@);
    }
    r
}

/// One step of `filter` along a growing prefix, for loop invariants.
pub proof fn lemma_filter_take_step<A>(s: Seq<A>, pred: spec_fn(A) -> bool, i: int)
    requires
        0 <= i < s.len(),
    ensures
        s.take(i + 1).filter(pred) == if pred(s[i]) {
            s.take(i).filter(pred).push(s[i])
        } else {
            s.take(i).filter(pred)
        },
{
    reveal(Seq::filter);
    assert(s.take(i + 1).drop_last() =~= s.take(i));
    assert(s.take(i + 1).last() == s[i]);
}

/// `filter` of a one-element sequence, for loop invariants.
pub proof fn lemma_filter_singleton<A>(x: A, pred: spec_fn(A) -> bool)
    ensures
        seq![x].filter(pred) == if pred(x) {
            seq![x]
        } else {
            Seq::<A>::empty()
        },
{
    reveal_with_fuel(Seq::filter, 2);
    assert(seq![x].drop_last() =~= Seq::<A>::empty());
    assert(Seq::<A>::empty().filter(pred) =~= Seq::<A>::empty());
    assert(Seq::<A>::empty().push(x) =~= seq![x]);
}

/// Are all bytes ASCII decimal digits?
pub open spec fn all_digits(s: Seq<u8>) -> bool {
    forall|i: int| 0 <= i < s.len() ==> is_digit(s[i])
}

/// Value of a string of decimal digits, most significant first.
pub open spec fn dec_val(s: Seq<u8>) -> int
    decreases s.len(),
{
    if s.len() == 0 {
        0
    } else {
        dec_val(s.drop_last()) * 10 + (s.last() - 48)
    }
}

pub open spec fn pow10(n: nat) -> int
    decreases n,
{
    if n == 0 {
        1
    } else {
        10 * pow10((n - 1) as nat)
    }
}

/// Parse an unsigned decimal number of one to nine digits.
pub fn parse_dec(s: &[u8]) -> (r: Option<u32>)
    ensures
        match r {
            Some(v) => 1 <= s@.len() <= 9 && all_digits(s@) && v == dec_val(s@),
            None => !(1 <= s@.len() <= 9 && all_digits(s@)),
        },
{
    let n: usize = s.len();
    if n == 0 || n > 9 {
        return None;
    }
    proof {
        assert(pow10(9) == 1_000_000_000) by {
            reveal_with_fuel(pow10, 10);
        }
    }
    let mut val: u32 = 0;
    let mut i: usize = 0;
    while i < n
        invariant
            0 <= i <= n == s@.len() <= 9,
            all_digits(s@.take(i as int)),
            val == dec_val(s@.take(i as int)),
            0 <= val < pow10(i as nat),
            pow10(9) == 1_000_000_000,
        decreases n - i,
    {
        let b = s[i];
        if b < 48 || b > 57 {
            return None;
        }
        proof {
            assert(s@.take(i + 1).drop_last() =~= s@.take(i as int));
            assert(pow10(i as nat) <= pow10(8)) by {
                lemma_pow10_mono(i as nat, 8);
            }
        }
        val = val * 10 + (b - 48) as u32;
        i += 1;
        proof {
            assert(all_digits(s@.take(i as int)));
        }
    }
    proof {
        assert(s@.take(n as int) =~= s@);
    }
    Some(val)
}

pub proof fn lemma_pow10_mono(a: nat, b: nat)
    requires
        a <= b,
    ensures
        pow10(a) <= pow10(b),
        pow10(a) >= 1,
    decreases b,
{
    if a < b {
        lemma_pow10_mono(a, (b - 1) as nat);
    } else if a == b && b > 0 {
        lemma_pow10_mono((a - 1) as nat, (b - 1) as nat);
    }
}

/// Decimal digit for a value below ten.
pub open spec fn digit(d: int) -> u8 {
    (48 + d) as u8
}

/// Decimal rendering of a non-negative number, most significant first.
pub open spec fn dec_str(n: int) -> Seq<u8>
    decreases n,
{
    if n < 10 {
        seq![digit(if n >= 0 { n } else { 0 })]
    } else {
        dec_str(n / 10).push(digit(n % 10))
    }
}

/// Append the decimal rendering of `n` to `out`.
pub fn push_dec(n: u64, out: &mut Vec<u8>)
    ensures
        final(out)@ == old(out)@ + dec_str(n as int),
    decreases n,
{
    if n < 10 {
        out.push(48 + n as u8);
        assert(out@ =~= old(out)@ + dec_str(n as int));
    } else {
        push_dec(n / 10, out);
        out.push(48 + (n % 10) as u8);
        assert(out@ =~= old(out)@ + dec_str(n as int));
    }
}

/// The decimal rendering is pure ASCII.
pub proof fn lemma_dec_str_ascii(n: int)
    ensures
        ascii_seq(dec_str(n)),
    decreases n,
{
    if n < 10 {
    } else {
        lemma_dec_str_ascii(n / 10);
    }
}

/// Fixed-width rendering of `n` as exactly two digits.
pub open spec fn dec2(n: int) -> Seq<u8> {
    seq![digit(n / 10 % 10), digit(n % 10)]
}

/// Fixed-width rendering of `n` as exactly four digits.
pub open spec fn dec4(n: int) -> Seq<u8> {
    seq![digit(n / 1000 % 10), digit(n / 100 % 10), digit(n / 10 % 10), digit(n % 10)]
}

/// Append `n` zero-padded to two digits.
pub fn push_dec2(n: u64, out: &mut Vec<u8>)
    requires
        n < 100,
    ensures
        final(out)@ == old(out)@ + dec2(n as int),
{
    out.push(48 + (n / 10) as u8);
    out.push(48 + (n % 10) as u8);
    assert(out@ =~= old(out)@ + dec2(n as int));
}

/// Append `n` zero-padded to four digits.
pub fn push_dec4(n: u64, out: &mut Vec<u8>)
    requires
        n < 10000,
    ensures
        final(out)@ == old(out)@ + dec4(n as int),
{
    out.push(48 + (n / 1000) as u8);
    out.push(48 + (n / 100 % 10) as u8);
    out.push(48 + (n / 10 % 10) as u8);
    out.push(48 + (n % 10) as u8);
    assert(out@ =~= old(out)@ + dec4(n as int));
}

/// Are all bytes plain ASCII?
pub open spec fn ascii_seq(s: Seq<u8>) -> bool {
    forall|i: int| 0 <= i < s.len() ==> s[i] < 128
}

/// The characters that lossy UTF-8 decoding yields for a byte sequence.
pub uninterp spec fn lossy_utf8(s: Seq<u8>) -> Seq<char>;

/// Relies on `String::from_utf8_lossy`: the decoding is a function of the
/// bytes alone, and ASCII bytes decode one byte to one identical character.
#[verifier::external_body]
pub fn bytes_to_string(v: &[u8]) -> (r: String)
    ensures
        r@ == lossy_utf8(v@),
        ascii_seq(v@) ==> r@ == v@.map_values(|b: u8| b as char),
{
    String::from_utf8_lossy(v).into_owned()
}

} // verus!
