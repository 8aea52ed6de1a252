//! Message dates: parsing the `Date:` header, the epoch order used to
//! sort the index, and the RFC 3339 text handed back to callers.
//!
//! A date is kept as its parsed components plus the zone offset the
//! header carried.  The accepted header shape is the common RFC 5322
//! form `[weekday,] day month-name year hh:mm[:ss] [zone]`, where the
//! zone is a numeric `+hhmm`/`-hhmm`; any other or missing zone token is
//! read as UTC.  A header that does not fit this shape yields no date,
//! and the index builder falls back to [`MailDate::sentinel`].

use vstd::prelude::*;

use crate::text::all_digits;
use crate::text::dec2;
use crate::text::dec4;
use crate::text::dec_val;
use crate::text::is_ws;
use crate::text::lower_byte;
use crate::text::lemma_filter_singleton;
use crate::text::parse_dec;
use crate::text::push_dec2;
use crate::text::push_dec4;
use crate::text::spec_split;
use crate::text::split_bytes;

verus! {

/// A parsed message date: civil components plus the zone offset, in
/// minutes east of UTC, that the header carried.
#[derive(Debug, Clone, Copy, PartialEq, Eq, Structural)]
pub struct MailDate {
    pub year: u16,
    pub month: u8,
    pub day: u8,
    pub hour: u8,
    pub minute: u8,
    pub second: u8,
    pub tz_minutes: i32,
}

impl MailDate {
    /// Component ranges every date in the index satisfies.
    pub open spec fn wf(&self) -> bool {
        &&& 1 <= self.year <= 9999
        &&& 1 <= self.month <= 12
        &&& 1 <= self.day <= 31
        &&& self.hour < 24
        &&& self.minute < 60
        &&& self.second < 60
        &&& -1439 <= self.tz_minutes <= 1439
    }

    /// The fallback for messages without a parseable date: the epoch
    /// instant, 1970-01-01T00:00:00 UTC.
    pub open spec fn sentinel_spec() -> MailDate {
        MailDate { year: 1970, month: 1, day: 1, hour: 0, minute: 0, second: 0, tz_minutes: 0 }
    }

    /// Exec constructor of the sentinel date.
    pub fn sentinel() -> (r: MailDate)
        ensures
            r == MailDate::sentinel_spec(),
            r.wf(),
    {
        MailDate { year: 1970, month: 1, day: 1, hour: 0, minute: 0, second: 0, tz_minutes: 0 }
    }

    /// Days from 1970-01-01 to this civil date (proleptic Gregorian).
    pub open spec fn epoch_days(&self) -> int {
        let y = if self.month <= 2 {
            self.year - 1
        } else {
            self.year as int
        };
        let era = y / 400;
        let yoe = y - era * 400;
        let mp = if self.month > 2 {
            self.month - 3
        } else {
            self.month + 9
        };
        let doy = (153 * mp + 2) / 5 + self.day - 1;
        let doe = yoe * 365 + yoe / 4 - yoe / 100 + doy;
        era * 146097 + doe - 719468
    }

    /// Seconds from the epoch to this instant; the order used to sort
    /// the index, newest first.
    pub open spec fn epoch_spec(&self) -> int {
        self.epoch_days() * 86400 + self.hour * 3600 + self.minute * 60 + self.second
            - self.tz_minutes * 60
    }

    /// Exec epoch seconds.
    pub fn epoch_seconds(&self) -> (r: i64)
        requires
            self.wf(),
        ensures
            r == self.epoch_spec(),
    {
        let y: i64 = if self.month <= 2 {
            self.year as i64 - 1
        } else {
            self.year as i64
        };
        let era: i64 = y / 400;
        let yoe: i64 = y - era * 400;
        let mp: i64 = if self.month > 2 {
            self.month as i64 - 3
        } else {
            self.month as i64 + 9
        };
        let doy: i64 = (153 * mp + 2) / 5 + self.day as i64 - 1;
        let doe: i64 = yoe * 365 + yoe / 4 - yoe / 100 + doy;
        let days: i64 = era * 146097 + doe - 719468;
        days * 86400 + self.hour as i64 * 3600 + self.minute as i64 * 60 + self.second as i64
            - self.tz_minutes as i64 * 60
    }

    /// The RFC 3339 rendering `yyyy-mm-ddThh:mm:ss+hh:mm` as bytes.
    pub open spec fn rfc3339_bytes(&self) -> Seq<u8> {
        let tz = if self.tz_minutes >= 0 {
            self.tz_minutes as int
        } else {
            -self.tz_minutes as int
        };
        dec4(self.year as int) + seq![45u8] + dec2(self.month as int) + seq![45u8] + dec2(
            self.day as int,
        ) + seq![84u8] + dec2(self.hour as int) + seq![58u8] + dec2(self.minute as int)
            + seq![58u8] + dec2(self.second as int) + seq![
            if self.tz_minutes >= 0 {
                43u8
            } else {
                45u8
            },
        ] + dec2(tz / 60) + seq![58u8] + dec2(tz % 60)
    }

    /// Render the date as RFC 3339 bytes.
    pub fn to_rfc3339(&self) -> (r: Vec<u8>)
        requires
            self.wf(),
        ensures
            r@ == self.rfc3339_bytes(),
    {
        let mut out: Vec<u8> = Vec::new();
        push_dec4(self.year as u64, &mut out);
        out.push(45);
        push_dec2(self.month as u64, &mut out);
        out.push(45);
        push_dec2(self.day as u64, &mut out);
        out.push(84);
        push_dec2(self.hour as u64, &mut out);
        out.push(58);
        push_dec2(self.minute as u64, &mut out);
        out.push(58);
        push_dec2(self.second as u64, &mut out);
        let tz: i32 = self.tz_minutes;
        if tz >= 0 {
            out.push(43);
            push_dec2((tz / 60) as u64, &mut out);
            out.push(58);
            push_dec2((tz % 60) as u64, &mut out);
        } else {
            out.push(45);
            let p: i32 = -tz;
            push_dec2((p / 60) as u64, &mut out);
            out.push(58);
            push_dec2((p % 60) as u64, &mut out);
        }
        proof {
            assert(out@ =~= self.rfc3339_bytes());
        }
        out
    }
}

/// The RFC 3339 rendering never leaves ASCII.
pub proof fn lemma_rfc3339_ascii(d: MailDate)
    ensures
        crate::text::ascii_seq(d.rfc3339_bytes()),
{
    let s = d.rfc3339_bytes();
    assert forall|i: int| 0 <= i < s.len() implies s[i] < 128 by {
        assert(s.len() == 25);
    }
}

/// The date header split into whitespace-separated tokens.
pub open spec fn spec_tokens(s: Seq<u8>) -> Seq<Seq<u8>> {
    spec_split(s.map_values(|b: u8| if is_ws(b) {
        32u8
    } else {
        b
    }), 32).filter(|t: Seq<u8>| t.len() > 0)
}

/// Split a header value into whitespace-separated tokens.
pub fn tokenize(s: &[u8]) -> (r: Vec<Vec<u8>>)
    ensures
        r@.map_values(|v: Vec<u8>| v@) == spec_tokens(s@),
{
    let n: usize = s.len();
    let mut norm: Vec<u8> = Vec::new();
    let mut i: usize = 0;
    while i < n
        invariant
            0 <= i <= n == s@.len(),
            norm@ == s@.take(i as int).map_values(|b: u8| if is_ws(b) {
                32u8
            } else {
                b
            }),
        decreases n - i,
    {
        let b = s[i];
        if is_ws_plain(b) {
            norm.push(32);
        } else {
            norm.push(b);
        }
        i += 1;
        proof {
            assert(norm@ =~= s@.take(i as int).map_values(|b: u8| if is_ws(b) {
                32u8
            } else {
                b
            }));
        }
    }
    proof {
        assert(s@.take(n as int) =~= s@);
    }
    let mut parts = split_bytes(norm.as_slice(), 32);
    let ghost whole = parts@.map_values(|v: Vec<u8>| v@);
    let mut out: Vec<Vec<u8>> = Vec::new();
    proof {
        assert(whole.filter(|t: Seq<u8>| t.len() > 0) =~= out@.map_values(|v: Vec<u8>| v@)
            + whole.filter(|t: Seq<u8>| t.len() > 0));
    }
    while parts.len() > 0
        invariant
            whole.filter(|t: Seq<u8>| t.len() > 0) == out@.map_values(|v: Vec<u8>| v@)
                + parts@.map_values(|v: Vec<u8>| v@).filter(|t: Seq<u8>| t.len() > 0),
        decreases parts@.len(),
    {
        let ghost pmap = parts@.map_values(|v: Vec<u8>| v@);
        let t = parts.remove(0);
        proof {
            assert(pmap =~= seq![t@] + parts@.map_values(|v: Vec<u8>| v@));
            Seq::filter_distributes_over_add(
                seq![t@],
                parts@.map_values(|v: Vec<u8>| v@),
                |t: Seq<u8>| t.len() > 0,
            );
            lemma_filter_singleton(t@, |t: Seq<u8>| t.len() > 0);
        }
        if t.len() > 0 {
            out.push(t);
            proof {
                assert(out@.map_values(|v: Vec<u8>| v@) =~= out@.map_values(
                    |v: Vec<u8>| v@,
                ).drop_last().push(t@));
            }
        }
        proof {
            assert(whole.filter(|t: Seq<u8>| t.len() > 0) =~= out@.map_values(|v: Vec<u8>| v@)
                + parts@.map_values(|v: Vec<u8>| v@).filter(|t: Seq<u8>| t.len() > 0));
        }
    }
    proof {
        assert(parts@.map_values(|v: Vec<u8>| v@) =~= Seq::<Seq<u8>>::empty());
        assert(parts@.map_values(|v: Vec<u8>| v@).filter(|t: Seq<u8>| t.len() > 0)
            =~= Seq::<Seq<u8>>::empty()) by {
            reveal(Seq::filter);
        }
        assert(out@.map_values(|v: Vec<u8>| v@) =~= whole.filter(|t: Seq<u8>| t.len() > 0));
    }
    out
}

/// Exec whitespace test, duplicated here to keep `tokenize` local.
fn is_ws_plain(b: u8) -> (r: bool)
    ensures
        r == is_ws(b),
{
    b == 32 || b == 9 || b == 13 || b == 10
}

/// Month number for a three-letter name, compared without case.
pub open spec fn spec_month(t: Seq<u8>) -> Option<u8> {
    if t.len() != 3 {
        None
    } else {
        let a = lower_byte(t[0]);
        let b = lower_byte(t[1]);
        let c = lower_byte(t[2]);
        if a == 106 && b == 97 && c == 110 {
            Some(1u8)
        } else if a == 102 && b == 101 && c == 98 {
            Some(2u8)
        } else if a == 109 && b == 97 && c == 114 {
            Some(3u8)
        } else if a == 97 && b == 112 && c == 114 {
            Some(4u8)
        } else if a == 109 && b == 97 && c == 121 {
            Some(5u8)
        } else if a == 106 && b == 117 && c == 110 {
            Some(6u8)
        } else if a == 106 && b == 117 && c == 108 {
            Some(7u8)
        } else if a == 97 && b == 117 && c == 103 {
            Some(8u8)
        } else if a == 115 && b == 101 && c == 112 {
            Some(9u8)
        } else if a == 111 && b == 99 && c == 116 {
            Some(10u8)
        } else if a == 110 && b == 111 && c == 118 {
            Some(11u8)
        } else if a == 100 && b == 101 && c == 99 {
            Some(12u8)
        } else {
            None
        }
    }
}

/// Exec month-name lookup.
pub fn month_of(t: &[u8]) -> (r: Option<u8>)
    ensures
        r == spec_month(t@),
{
    if t.len() != 3 {
        return None;
    }
    let a = crate::text::to_lower(t[0]);
    let b = crate::text::to_lower(t[1]);
    let c = crate::text::to_lower(t[2]);
    if a == 106 && b == 97 && c == 110 {
        Some(1)
    } else if a == 102 && b == 101 && c == 98 {
        Some(2)
    } else if a == 109 && b == 97 && c == 114 {
        Some(3)
    } else if a == 97 && b == 112 && c == 114 {
        Some(4)
    } else if a == 109 && b == 97 && c == 121 {
        Some(5)
    } else if a == 106 && b == 117 && c == 110 {
        Some(6)
    } else if a == 106 && b == 117 && c == 108 {
        Some(7)
    } else if a == 97 && b == 117 && c == 103 {
        Some(8)
    } else if a == 115 && b == 101 && c == 112 {
        Some(9)
    } else if a == 111 && b == 99 && c == 116 {
        Some(10)
    } else if a == 110 && b == 111 && c == 118 {
        Some(11)
    } else if a == 100 && b == 101 && c == 99 {
        Some(12)
    } else {
        None
    }
}

/// A decimal token of at most `maxlen` digits whose value lies in
/// `lo..=hi`.
pub open spec fn spec_num(t: Seq<u8>, maxlen: int, lo: int, hi: int) -> Option<u32> {
    if 1 <= t.len() <= maxlen && all_digits(t) && lo <= dec_val(t) <= hi {
        Some(dec_val(t) as u32)
    } else {
        None
    }
}

/// Exec bounded-number parse.
pub fn num_of(t: &[u8], maxlen: usize, lo: u32, hi: u32) -> (r: Option<u32>)
    requires
        maxlen <= 9,
        hi <= 0xffff_ffff,
    ensures
        r == spec_num(t@, maxlen as int, lo as int, hi as int),
{
    if t.len() == 0 || t.len() > maxlen {
        return None;
    }
    match parse_dec(t) {
        Some(v) => {
            if lo <= v && v <= hi {
                Some(v)
            } else {
                None
            }
        },
        None => None,
    }
}

/// Hour, minute and second of a `hh:mm[:ss]` token.
pub open spec fn spec_time(t: Seq<u8>) -> Option<(u8, u8, u8)> {
    let parts = spec_split(t, 58);
    if parts.len() == 2 {
        match (spec_num(parts[0], 2, 0, 23), spec_num(parts[1], 2, 0, 59)) {
            (Some(h), Some(m)) => Some((h as u8, m as u8, 0u8)),
            _ => None,
        }
    } else if parts.len() == 3 {
        match (spec_num(parts[0], 2, 0, 23), spec_num(parts[1], 2, 0, 59), spec_num(
            parts[2],
            2,
            0,
            59,
        )) {
            (Some(h), Some(m), Some(s)) => Some((h as u8, m as u8, s as u8)),
            _ => None,
        }
    } else {
        None
    }
}

/// Exec time-of-day parse.
pub fn time_of(t: &[u8]) -> (r: Option<(u8, u8, u8)>)
    ensures
        r == spec_time(t@),
{
    let parts = split_bytes(t, 58);
    let ghost pmap = parts@.map_values(|v: Vec<u8>| v@);
    if parts.len() == 2 {
        assert(pmap[0] == parts@[0]@ && pmap[1] == parts@[1]@);
        let h = num_of(parts[0].as_slice(), 2, 0, 23);
        let m = num_of(parts[1].as_slice(), 2, 0, 59);
        match (h, m) {
            (Some(h), Some(m)) => Some((h as u8, m as u8, 0u8)),
            _ => None,
        }
    } else if parts.len() == 3 {
        assert(pmap[0] == parts@[0]@ && pmap[1] == parts@[1]@ && pmap[2] == parts@[2]@);
        let h = num_of(parts[0].as_slice(), 2, 0, 23);
        let m = num_of(parts[1].as_slice(), 2, 0, 59);
        let s = num_of(parts[2].as_slice(), 2, 0, 59);
        match (h, m, s) {
            (Some(h), Some(m), Some(s)) => Some((h as u8, m as u8, s as u8)),
            _ => None,
        }
    } else {
        None
    }
}

/// Zone offset in minutes east of UTC for a `+hhmm`/`-hhmm` token with
/// an hour below 24 and a minute below 60; any other token reads as UTC.
pub open spec fn spec_zone(t: Seq<u8>) -> int {
    if t.len() == 5 && (t[0] == 43 || t[0] == 45) && spec_num(t.subrange(1, 3), 2, 0, 23)
        is Some && spec_num(t.subrange(3, 5), 2, 0, 59) is Some {
        let hh = dec_val(t.subrange(1, 3));
        let mm = dec_val(t.subrange(3, 5));
        let v = hh * 60 + mm;
        if t[0] == 45 {
            -v
        } else {
            v
        }
    } else {
        0
    }
}

/// Exec zone parse.
pub fn zone_of(t: &[u8]) -> (r: i32)
    ensures
        r == spec_zone(t@),
        -1439 <= r <= 1439,
{
    if t.len() == 5 && (t[0] == 43 || t[0] == 45) {
        let hhs = vstd::slice::slice_subrange(t, 1, 3);
        let mms = vstd::slice::slice_subrange(t, 3, 5);
        let hh = num_of(hhs, 2, 0, 23);
        let mm = num_of(mms, 2, 0, 59);
        match (hh, mm) {
            (Some(hh), Some(mm)) => {
                let v: i32 = (hh * 60 + mm) as i32;
                if t[0] == 45 {
                    -v
                } else {
                    v
                }
            },
            _ => 0,
        }
    } else {
        0
    }
}

/// The date a header value denotes, if it fits the accepted shape.
pub open spec fn spec_parse_date(s: Seq<u8>) -> Option<MailDate> {
    let toks = spec_tokens(s);
    let t2 = if toks.len() > 0 && toks[0].len() > 0 && toks[0].last() == 44 {
        toks.drop_first()
    } else {
        toks
    };
    if t2.len() < 4 {
        None
    } else {
        let tz = if t2.len() >= 5 {
            spec_zone(t2[4])
        } else {
            0
        };
        match (spec_num(t2[0], 2, 1, 31), spec_month(t2[1]), spec_num(t2[2], 4, 1, 9999),
        spec_time(t2[3])) {
            (Some(d), Some(mo), Some(y), Some(hms)) => Some(
                MailDate {
                    year: y as u16,
                    month: mo,
                    day: d as u8,
                    hour: hms.0,
                    minute: hms.1,
                    second: hms.2,
                    tz_minutes: tz as i32,
                },
            ),
            _ => None,
        }
    }
}

/// Parse a `Date:` header value.
pub fn parse_date(s: &[u8]) -> (r: Option<MailDate>)
    ensures
        r == spec_parse_date(s@),
        r matches Some(d) ==> d.wf(),
{
    let toks = tokenize(s);
    let ghost tmap = toks@.map_values(|v: Vec<u8>| v@);
    let skip: usize = if toks.len() > 0 && toks[0].len() > 0 && toks[0][toks[0].len() - 1] == 44 {
        1
    } else {
        0
    };
    let ghost t2 = if skip == 1 {
        tmap.drop_first()
    } else {
        tmap
    };
    if toks.len() - skip < 4 {
        return None;
    }
    proof {
        assert(t2.len() == tmap.len() - skip);
        assert(forall|j: int| 0 <= j < t2.len() ==> t2[j] == tmap[j + skip]);
    }
    let d = num_of(toks[skip].as_slice(), 2, 1, 31);
    let mo = month_of(toks[skip + 1].as_slice());
    let y = num_of(toks[skip + 2].as_slice(), 4, 1, 9999);
    let hms = time_of(toks[skip + 3].as_slice());
    let tz: i32 = if toks.len() - skip >= 5 {
        zone_of(toks[skip + 4].as_slice())
    } else {
        0
    };
    match (d, mo, y, hms) {
        (Some(d), Some(mo), Some(y), Some(hms)) => Some(
            MailDate {
                year: y as u16,
                month: mo,
                day: d as u8,
                hour: hms.0,
                minute: hms.1,
                second: hms.2,
                tz_minutes: tz,
            },
        ),
        _ => None,
    }
}

} // verus!
