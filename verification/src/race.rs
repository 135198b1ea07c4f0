//! The toy boat race: how many button-holding times win.
//!
//! Holding the button for `speed` time units in a race `time` units long
//! covers `(time - speed) * speed` distance.  A hold wins when it beats the
//! record `distance`.

use vstd::prelude::*;
use crate::text;

verus! {

/// The bytes of the label `Time`.
pub open spec fn time_word() -> Seq<u8> {
    seq![84u8, 105u8, 109u8, 101u8]
}

/// The bytes of the label `Distance`.
pub open spec fn distance_word() -> Seq<u8> {
    seq![68u8, 105u8, 115u8, 116u8, 97u8, 110u8, 99u8, 101u8]
}

/// One labelled line of the race schedule.
pub enum RaceLine {
    Time(Vec<usize>),
    Distance(Vec<usize>),
}

/// What a schedule line means: a `Time` or `Distance` label before the
/// colon, then whitespace-separated numbers.  The flag is true for `Time`.
pub open spec fn race_line_of(b: Seq<u8>) -> Option<(bool, Seq<int>)> {
    let ci = text::first_byte_at(b, 58);
    if ci < 0 {
        None
    } else {
        let head = b.take(ci);
        if head != time_word() && head != distance_word() {
            None
        } else {
            match text::token_values(text::space_tokens(b.skip(ci + 1))) {
                Option::None => None,
                Option::Some(vs) => Some((head == time_word(), vs)),
            }
        }
    }
}

/// Reads one schedule line.  Fails exactly when the line is not ASCII, the
/// label is missing or unknown, or a number is malformed or too large.
pub fn parse_race_line(line: &str) -> (r: Option<RaceLine>)
    ensures
        !vstd::utf8::is_ascii_chars(line@) ==> r is None,
        vstd::utf8::is_ascii_chars(line@) ==> {
            let parsed = race_line_of(text::byte_view(line@));
            &&& r is Some <==> parsed is Some
            &&& r is Some ==> ({
                let pair = parsed->0;
                &&& (r->0 is Time <==> pair.0)
                &&& (r->0 is Time ==> r->0->Time_0@.map_values(|x: usize| x as int) == pair.1)
                &&& (r->0 is Distance ==> r->0->Distance_0@.map_values(|x: usize| x as int)
                    == pair.1)
            })
        },
{
    let bytes: Vec<u8> = match text::ascii_bytes(line) {
        Option::Some(b) => b,
        Option::None => {
            return None;
        },
    };
    proof {
        assert(bytes@.skip(0) =~= bytes@);
    }
    let ci = match text::find_first(&bytes, 0, 58) {
        Option::Some(i) => i,
        Option::None => {
            return None;
        },
    };
    let head = text::copy_range(&bytes, 0, ci);
    proof {
        assert(head@ =~= bytes@.take(ci as int));
    }
    let is_time: bool = head.len() == 4 && head[0] == 84 && head[1] == 105 && head[2] == 109
        && head[3] == 101;
    let is_distance: bool = head.len() == 8 && head[0] == 68 && head[1] == 105 && head[2] == 115
        && head[3] == 116 && head[4] == 97 && head[5] == 110 && head[6] == 99 && head[7] == 101;
    proof {
        if is_time {
            assert(head@ =~= time_word());
        } else {
            assert(head@ != time_word());
        }
        if is_distance {
            assert(head@ =~= distance_word());
        } else {
            assert(head@ != distance_word());
        }
        vstd::std_specs::vec::axiom_spec_len(&bytes);
    }
    if !is_time && !is_distance {
        return None;
    }
    let tail = text::copy_range(&bytes, ci + 1, bytes.len());
    proof {
        assert(tail@ =~= bytes@.skip(ci + 1));
    }
    let toks = text::split_spaces(tail.as_slice());
    let values = match text::parse_all(&toks) {
        Option::Some(v) => v,
        Option::None => {
            return None;
        },
    };
    if is_time {
        Some(RaceLine::Time(values))
    } else {
        Some(RaceLine::Distance(values))
    }
}

/// How many hold times in `1 .. bound` beat the record.
pub open spec fn winning_holds(time: int, distance: int, bound: int) -> int
    decreases bound,
{
    if bound <= 1 {
        0
    } else {
        winning_holds(time, distance, bound - 1) + if (time - (bound - 1)) * (bound - 1)
            > distance {
            1int
        } else {
            0int
        }
    }
}

/// Counts the hold times that beat the record over a race of `time` units.
pub fn get_time(time: usize, distance: usize) -> (r: usize)
    requires
        time * time <= usize::MAX,
    ensures
        r == winning_holds(time as int, distance as int, time as int),
{
    let mut count: usize = 0;
    let mut speed: usize = 1;
    if time == 0 {
        return 0;
    }
    while speed < time
        invariant
            time >= 1,
            time * time <= usize::MAX,
            1 <= speed <= time,
            count < speed,
            count == winning_holds(time as int, distance as int, speed as int),
        decreases time - speed,
    {
        proof {
            assert((time - speed) * speed <= time * time) by (nonlinear_arith)
                requires 1 <= speed <= time;
            assert((time - speed) * speed >= 0) by (nonlinear_arith)
                requires 1 <= speed <= time;
        }
        let travelled: usize = (time - speed) * speed;
        if travelled > distance {
            count = count + 1;
        }
        speed = speed + 1;
    }
    count
}

} // verus!
