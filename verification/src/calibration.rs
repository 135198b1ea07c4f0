//! Calibration values: the first and last digit hidden in a line.
//!
//! A digit is either an ASCII digit character or a spelled-out digit word
//! (`zero` through `nine`).  The calibration value of a line is ten times
//! the first such digit plus the last; a line without digits counts zero.

use vstd::prelude::*;
use crate::text;

verus! {

/// The bytes of the spelled-out name of digit `d`.
pub open spec fn digit_word(d: int) -> Seq<u8> {
    if d == 0 {
        seq![122u8, 101u8, 114u8, 111u8]
    } else if d == 1 {
        seq![111u8, 110u8, 101u8]
    } else if d == 2 {
        seq![116u8, 119u8, 111u8]
    } else if d == 3 {
        seq![116u8, 104u8, 114u8, 101u8, 101u8]
    } else if d == 4 {
        seq![102u8, 111u8, 117u8, 114u8]
    } else if d == 5 {
        seq![102u8, 105u8, 118u8, 101u8]
    } else if d == 6 {
        seq![115u8, 105u8, 120u8]
    } else if d == 7 {
        seq![115u8, 101u8, 118u8, 101u8, 110u8]
    } else if d == 8 {
        seq![101u8, 105u8, 103u8, 104u8, 116u8]
    } else {
        seq![110u8, 105u8, 110u8, 101u8]
    }
}

/// True when the name of digit `d` stands at position `i` of `s`.
pub open spec fn word_at(s: Seq<u8>, i: int, d: int) -> bool {
    i + digit_word(d).len() <= s.len() && s.subrange(i, i + digit_word(d).len() as int)
        == digit_word(d)
}

/// The digit readable at position `i`: the digit character standing there,
/// or the digit whose name starts there.
pub open spec fn digit_at(s: Seq<u8>, i: int) -> Option<int> {
    if text::is_digit(s[i]) {
        Some(s[i] - 48)
    } else if word_at(s, i, 0) {
        Some(0)
    } else if word_at(s, i, 1) {
        Some(1)
    } else if word_at(s, i, 2) {
        Some(2)
    } else if word_at(s, i, 3) {
        Some(3)
    } else if word_at(s, i, 4) {
        Some(4)
    } else if word_at(s, i, 5) {
        Some(5)
    } else if word_at(s, i, 6) {
        Some(6)
    } else if word_at(s, i, 7) {
        Some(7)
    } else if word_at(s, i, 8) {
        Some(8)
    } else if word_at(s, i, 9) {
        Some(9)
    } else {
        None
    }
}

/// The first digit readable at or after position `i`.
pub open spec fn first_digit_from(s: Seq<u8>, i: int) -> Option<int>
    decreases s.len() - i,
{
    if i < 0 || i >= s.len() {
        None
    } else if digit_at(s, i) is Some {
        digit_at(s, i)
    } else {
        first_digit_from(s, i + 1)
    }
}

/// The last digit readable at or before position `i`.
pub open spec fn last_digit_from(s: Seq<u8>, i: int) -> Option<int>
    decreases i + 1,
{
    if i < 0 || i >= s.len() {
        None
    } else if digit_at(s, i) is Some {
        digit_at(s, i)
    } else {
        last_digit_from(s, i - 1)
    }
}

/// The calibration value of a byte line.
pub open spec fn calibration_value(s: Seq<u8>) -> int {
    match first_digit_from(s, 0) {
        Option::None => 0,
        Option::Some(f) => 10 * f + last_digit_from(s, s.len() - 1)->0,
    }
}

/// The digit readable at position `i`, as executable code.
fn read_digit_at(v: &Vec<u8>, i: usize) -> (r: Option<usize>)
    requires
        i < v@.len(),
    ensures
        r is Some <==> digit_at(v@, i as int) is Some,
        r is Some ==> r->0 == digit_at(v@, i as int)->0 && r->0 <= 9,
{
    let n: usize = v.len();
    let b: u8 = v[i];
    if 48 <= b && b <= 57 {
        return Some((b - 48) as usize);
    }
    let mut d: usize = 0;
    while d < 10
        invariant
            n == v@.len(),
            i < n,
            !text::is_digit(v@[i as int]),
            d <= 10,
            forall|e: int| 0 <= e < d ==> !word_at(v@, i as int, e),
        decreases 10 - d,
    {
        let len: usize = match d {
            0 => 4,
            1 => 3,
            2 => 3,
            3 => 5,
            4 => 4,
            5 => 4,
            6 => 3,
            7 => 5,
            8 => 5,
            _ => 4,
        };
        proof {
            assert(digit_word(d as int).len() == len);
        }
        if len <= n - i {
            let mut k: usize = 0;
            let mut same: bool = true;
            while k < len
                invariant
                    n == v@.len(),
                    i + len <= n,
                    d < 10,
                    len == digit_word(d as int).len(),
                    k <= len,
                    same <==> (forall|t: int|
                        0 <= t < k ==> v@[i + t] == digit_word(d as int)[t]),
                decreases len - k,
            {
                let expected: u8 = word_byte(d, k);
                if v[i + k] != expected {
                    same = false;
                }
                k = k + 1;
            }
            if same {
                proof {
                    assert(v@.subrange(i as int, i + len) =~= digit_word(d as int));
                }
                return Some(d);
            }
            proof {
                let sub = v@.subrange(i as int, i + len);
                let t = choose|t: int| 0 <= t < len && v@[i + t] != digit_word(d as int)[t];
                assert(sub[t] == v@[i + t]);
                assert(!word_at(v@, i as int, d as int));
            }
        }
        d = d + 1;
    }
    None
}

/// Byte `k` of the name of digit `d`.
fn word_byte(d: usize, k: usize) -> (r: u8)
    requires
        d < 10,
        k < digit_word(d as int).len(),
    ensures
        r == digit_word(d as int)[k as int],
{
    match d {
        0 => match k { 0 => 122, 1 => 101, 2 => 114, _ => 111 },
        1 => match k { 0 => 111, 1 => 110, _ => 101 },
        2 => match k { 0 => 116, 1 => 119, _ => 111 },
        3 => match k { 0 => 116, 1 => 104, 2 => 114, 3 => 101, _ => 101 },
        4 => match k { 0 => 102, 1 => 111, 2 => 117, _ => 114 },
        5 => match k { 0 => 102, 1 => 105, 2 => 118, _ => 101 },
        6 => match k { 0 => 115, 1 => 105, _ => 120 },
        7 => match k { 0 => 115, 1 => 101, 2 => 118, 3 => 101, _ => 110 },
        8 => match k { 0 => 101, 1 => 105, 2 => 103, 3 => 104, _ => 116 },
        _ => match k { 0 => 110, 1 => 105, 2 => 110, _ => 101 },
    }
}

/// The calibration value of the line: ten times the first digit plus the
/// last digit, each either a digit character or a spelled digit name, or
/// zero where the line holds none.  A line that is not ASCII counts zero.
pub fn process(line: &str) -> (r: usize)
    ensures
        vstd::utf8::is_ascii_chars(line@) ==> r == calibration_value(text::byte_view(line@)),
        !vstd::utf8::is_ascii_chars(line@) ==> r == 0,
{
    let bytes: Vec<u8> = match text::ascii_bytes(line) {
        Option::Some(b) => b,
        Option::None => {
            return 0;
        },
    };
    let n: usize = bytes.len();
    let mut f: usize = 0;
    let mut found: bool = false;
    let mut i: usize = 0;
    while i < n && !found
        invariant
            n == bytes@.len(),
            i <= n,
            f <= 9,
            found ==> i < n && first_digit_from(bytes@, 0) == Some(f as int) && digit_at(
                bytes@,
                i as int,
            ) is Some,
            !found ==> first_digit_from(bytes@, 0) == first_digit_from(bytes@, i as int),
        decreases n - i, (if found { 0int } else { 1int }),
    {
        let d = read_digit_at(&bytes, i);
        match d {
            Option::Some(v) => {
                f = v;
                found = true;
            },
            Option::None => {
                i = i + 1;
            },
        }
    }
    if !found {
        proof {
            assert(first_digit_from(bytes@, i as int) is None);
        }
        return 0;
    }
    let mut last: usize = 0;
    let mut found_last: bool = false;
    let mut j: usize = n;
    while j > 0 && !found_last
        invariant
            n == bytes@.len(),
            j <= n,
            last <= 9,
            found_last ==> last_digit_from(bytes@, n - 1) == Some(last as int),
            !found_last ==> last_digit_from(bytes@, n - 1) == last_digit_from(bytes@, j - 1),
        decreases j, (if found_last { 0int } else { 1int }),
    {
        let d = read_digit_at(&bytes, j - 1);
        match d {
            Option::Some(v) => {
                last = v;
                found_last = true;
            },
            Option::None => {
                j = j - 1;
            },
        }
    }
    if !found_last {
        proof {
            lemma_last_digit_covers(bytes@, n - 1, i as int);
            assert(false);
        }
    }
    10 * f + last
}

/// A digit readable at position `k` keeps every later backward scan from
/// running out.
proof fn lemma_last_digit_covers(s: Seq<u8>, i: int, k: int)
    requires
        0 <= k <= i < s.len(),
        digit_at(s, k) is Some,
    ensures
        last_digit_from(s, i) is Some,
    decreases i - k,
{
    if i > k && digit_at(s, i) is None {
        lemma_last_digit_covers(s, i - 1, k);
    }
}

} // verus!
