//! Renderers for durations, timestamps and stops.
//!
//! Each renderer produces the ASCII bytes of the value's textual form; the
//! surrounding application turns them into strings for display. Durations
//! render as `"1h2m3s"` with zero parts omitted (`"0s"` for zero);
//! timestamps as `"HH:MM"`, with `":SS"` when the seconds are non-zero and
//! `" +D"` when the day offset is; stops as the site identifier, the chosen
//! duty if any, the arrival and the service end.

use vstd::prelude::*;
use crate::duration::Duration;
use crate::ids::InternalId;
use crate::stop::Stop;
use crate::timestamp::Timestamp;

verus! {

/// The decimal digits of a non-negative number, most significant first.
pub open spec fn dec_digits(n: int) -> Seq<u8>
    decreases n,
{
    if n < 10 {
        seq![(48 + n) as u8]
    } else {
        dec_digits(n / 10).push((48 + n % 10) as u8)
    }
}

/// A number below 100 as exactly two decimal digits.
pub open spec fn two_digit_bytes(n: int) -> Seq<u8> {
    seq![(48 + n / 10) as u8, (48 + n % 10) as u8]
}

/// The text of a non-negative duration: hour, minute and second parts,
/// each omitted when zero, or `"0s"` for the zero duration.
pub open spec fn duration_bytes(secs: int) -> Seq<u8> {
    if secs == 0 {
        seq![48u8, 115u8]
    } else {
        let h = secs / 3600;
        let m = (secs / 60) % 60;
        let s = secs % 60;
        (if h != 0 {
            dec_digits(h) + seq![104u8]
        } else {
            Seq::empty()
        }) + (if m != 0 {
            dec_digits(m) + seq![109u8]
        } else {
            Seq::empty()
        }) + (if s != 0 {
            dec_digits(s) + seq![115u8]
        } else {
            Seq::empty()
        })
    }
}

/// The text of a non-negative timestamp: hours and minutes, the seconds
/// when non-zero, and the day offset when non-zero.
pub open spec fn timestamp_bytes(v: int) -> Seq<u8> {
    let d = v / 86400;
    let h = (v / 3600) % 24;
    let m = (v / 60) % 60;
    let s = v % 60;
    two_digit_bytes(h) + seq![58u8] + two_digit_bytes(m) + (if s != 0 {
        seq![58u8] + two_digit_bytes(s)
    } else {
        Seq::empty()
    }) + (if d != 0 {
        seq![32u8, 43u8] + dec_digits(d)
    } else {
        Seq::empty()
    })
}

/// The text of a scheduled stop: its site identifier, the duty if one was
/// chosen, then arrival and service end.
pub open spec fn stop_bytes(stop: Stop) -> Seq<u8> {
    let head = match stop.duty {
        None => dec_digits(stop.site.spec_id()),
        Some(d) => dec_digits(stop.site.spec_id()) + seq![40u8, 100u8, 117u8, 116u8, 121u8, 32u8]
            + timestamp_bytes(d.spec_start()) + seq![32u8, 45u8, 32u8] + timestamp_bytes(
            d.spec_end(),
        ) + seq![41u8],
    };
    head + seq![32u8, 64u8, 32u8] + timestamp_bytes(stop.ride_end@) + seq![32u8, 45u8, 62u8, 32u8]
        + timestamp_bytes(stop.service_end@)
}

/// Renders a number in decimal.
fn render_number(n: u64) -> (r: Vec<u8>)
    ensures
        r@ == dec_digits(n as int),
    decreases n,
{
    if n < 10 {
        let mut v: Vec<u8> = Vec::new();
        v.push(48 + (n as u8));
        proof {
            assert(v@ =~= dec_digits(n as int));
        }
        v
    } else {
        let mut v = render_number(n / 10);
        v.push(48 + ((n % 10) as u8));
        v
    }
}

/// Appends a number below 100 as exactly two digits.
fn push_two_digits(out: &mut Vec<u8>, n: i64)
    requires
        0 <= n < 100,
    ensures
        final(out)@ == old(out)@ + two_digit_bytes(n as int),
{
    out.push(48 + ((n / 10) as u8));
    out.push(48 + ((n % 10) as u8));
    proof {
        assert(out@ =~= old(out)@ + two_digit_bytes(n as int));
    }
}

impl Duration {
    /// The duration's textual form, as ASCII bytes.
    pub fn to_text(self) -> (r: Vec<u8>)
        requires
            0 <= self@,
        ensures
            r@ == duration_bytes(self@),
    {
        let total = self.as_s();
        if total == 0 {
            let mut v: Vec<u8> = Vec::new();
            v.push(48);
            v.push(115);
            proof {
                assert(v@ =~= duration_bytes(0));
            }
            v
        } else {
            let s = total % 60;
            let m = (total / 60) % 60;
            let h = total / 3600;
            let mut out: Vec<u8> = Vec::new();
            if h != 0 {
                let mut digits = render_number(h as u64);
                out.append(&mut digits);
                out.push(104);
            }
            if m != 0 {
                let mut digits = render_number(m as u64);
                out.append(&mut digits);
                out.push(109);
            }
            if s != 0 {
                let mut digits = render_number(s as u64);
                out.append(&mut digits);
                out.push(115);
            }
            proof {
                assert(out@ =~= duration_bytes(self@));
            }
            out
        }
    }
}

impl Timestamp {
    /// The timestamp's textual form, as ASCII bytes.
    pub fn to_text(self) -> (r: Vec<u8>)
        requires
            0 <= self@,
        ensures
            r@ == timestamp_bytes(self@),
    {
        let (d, h, m, s) = self.as_dhms();
        let mut out: Vec<u8> = Vec::new();
        push_two_digits(&mut out, h);
        out.push(58);
        push_two_digits(&mut out, m);
        if s != 0 {
            out.push(58);
            push_two_digits(&mut out, s);
        }
        if d != 0 {
            out.push(32);
            out.push(43);
            let mut digits = render_number(d as u64);
            out.append(&mut digits);
        }
        proof {
            assert(out@ =~= timestamp_bytes(self@));
        }
        out
    }
}

impl Stop {
    /// The stop's textual form, as ASCII bytes.
    pub fn to_text(&self) -> (r: Vec<u8>)
        requires
            0 <= self.ride_end@,
            0 <= self.service_end@,
            self.duty matches Some(d) ==> 0 <= d.spec_start() && 0 <= d.spec_end(),
        ensures
            r@ == stop_bytes(*self),
    {
        let mut out = render_number(self.site.as_usize() as u64);
        match self.duty {
            None => {},
            Some(duty) => {
                out.push(40);
                out.push(100);
                out.push(117);
                out.push(116);
                out.push(121);
                out.push(32);
                let mut start = duty.start().to_text();
                out.append(&mut start);
                out.push(32);
                out.push(45);
                out.push(32);
                let mut end = duty.end().to_text();
                out.append(&mut end);
                out.push(41);
            },
        }
        out.push(32);
        out.push(64);
        out.push(32);
        let mut arrival = self.ride_end.to_text();
        out.append(&mut arrival);
        out.push(32);
        out.push(45);
        out.push(62);
        out.push(32);
        let mut done = self.service_end.to_text();
        out.append(&mut done);
        proof {
            assert(out@ =~= stop_bytes(*self));
        }
        out
    }
}

} // verus!
