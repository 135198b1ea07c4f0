//! Byte-level parsing helpers for the puzzle input formats.
//!
//! The puzzle inputs are ASCII lines.  Each line is first turned into its
//! byte sequence; splitting and number parsing then work on bytes, with the
//! corresponding sequence functions as their specifications.

use vstd::prelude::*;

verus! {

/// The bytes that the characters of an ASCII string occupy.
pub open spec fn byte_view(s: Seq<char>) -> Seq<u8> {
    s.map_values(|c: char| c as u8)
}

/// True when `b` is an ASCII digit.
pub open spec fn is_digit(b: u8) -> bool {
    48 <= b <= 57
}

/// True when the bytes are all ASCII digits.
pub open spec fn all_digits(s: Seq<u8>) -> bool {
    forall|i: int| 0 <= i < s.len() ==> is_digit(#[trigger] s[i])
}

/// The value of a sequence of ASCII digits read as a decimal number.
pub open spec fn dec_value(s: Seq<u8>) -> int
    decreases s.len(),
{
    if s.len() == 0 {
        0
    } else {
        dec_value(s.drop_last()) * 10 + (s.last() - 48)
    }
}

proof fn lemma_dec_value_nonneg(s: Seq<u8>)
    requires
        all_digits(s),
    ensures
        dec_value(s) >= 0,
    decreases s.len(),
{
    if s.len() > 0 {
        assert(all_digits(s.drop_last()));
        lemma_dec_value_nonneg(s.drop_last());
    }
}

/// Appending digits never lowers the value read so far.
proof fn lemma_dec_value_prefix_le(s: Seq<u8>, i: int)
    requires
        all_digits(s),
        0 <= i <= s.len(),
    ensures
        dec_value(s.take(i)) <= dec_value(s),
    decreases s.len() - i,
{
    if i < s.len() {
        lemma_dec_value_prefix_le(s, i + 1);
        let t = s.take(i + 1);
        assert(t.drop_last() =~= s.take(i));
        assert(all_digits(s.take(i)));
        lemma_dec_value_nonneg(s.take(i));
        assert(dec_value(t) == dec_value(s.take(i)) * 10 + (s[i] - 48));
    } else {
        assert(s.take(i) =~= s);
    }
}

/// The bytes of `s`, or `None` where `s` is not all ASCII.
pub fn ascii_bytes(s: &str) -> (r: Option<Vec<u8>>)
    ensures
        r is Some <==> vstd::utf8::is_ascii_chars(s@),
        r is Some ==> r->0@ == byte_view(s@),
{
    broadcast use vstd::string::is_ascii_spec_bytes;

    if s.is_ascii() {
        let bytes: &[u8] = s.as_bytes();
        let mut v: Vec<u8> = Vec::new();
        let n: usize = bytes.len();
        let mut i: usize = 0;
        while i < n
            invariant
                n == bytes@.len(),
                i <= n,
                v@ =~= bytes@.take(i as int),
            decreases n - i,
        {
            v.push(bytes[i]);
            i = i + 1;
        }
        proof {
            assert(v@ =~= bytes@);
            assert(v@ =~= byte_view(s@));
        }
        Some(v)
    } else {
        None
    }
}

/// The decimal number the bytes spell, exactly when they are one or more
/// digits and the value fits the machine word.
pub fn parse_usize(bytes: &[u8]) -> (r: Option<usize>)
    ensures
        r is Some <==> bytes@.len() >= 1 && all_digits(bytes@) && dec_value(bytes@)
            <= usize::MAX as int,
        r is Some ==> r->0 == dec_value(bytes@),
    {
    let n: usize = bytes.len();
    if n == 0 {
        return None;
    }
    let mut acc: usize = 0;
    let mut i: usize = 0;
    while i < n
        invariant
            n == bytes@.len(),
            i <= n,
            all_digits(bytes@.take(i as int)),
            acc == dec_value(bytes@.take(i as int)),
        decreases n - i,
    {
        let b: u8 = bytes[i];
        if b < 48 || b > 57 {
            return None;
        }
        let d: usize = (b - 48) as usize;
        if acc > (usize::MAX - d) / 10 {
            proof {
                let t = bytes@.take(i + 1);
                assert(t.drop_last() =~= bytes@.take(i as int));
                assert(dec_value(t) == acc * 10 + d);
                assert(acc * 10 + d > usize::MAX as int) by {
                    let m = usize::MAX as int;
                    assert(acc as int > (m - d) / 10 ==> acc * 10 + d > m) by (nonlinear_arith)
                        requires 0 <= d <= 9 && acc as int >= 0 && m == usize::MAX as int;
                }
                if all_digits(bytes@) {
                    lemma_dec_value_prefix_le(bytes@, i + 1);
                }
            }
            return None;
        }
        proof {
            let t = bytes@.take(i + 1);
            assert(t.drop_last() =~= bytes@.take(i as int));
            assert(acc * 10 + d <= usize::MAX as int) by {
                let m = usize::MAX as int;
                assert(acc as int <= (m - d) / 10 ==> acc * 10 + d <= m) by (nonlinear_arith)
                    requires 0 <= d <= 9 && acc as int >= 0 && m == usize::MAX as int;
            }
        }
        acc = acc * 10 + d;
        i = i + 1;
    }
    proof {
        assert(bytes@.take(n as int) =~= bytes@);
    }
    Some(acc)
}

/// True when the bytes spell a number an input line may hold: one or more
/// digits whose value fits the machine word.
pub open spec fn valid_number(t: Seq<u8>) -> bool {
    t.len() >= 1 && all_digits(t) && dec_value(t) <= usize::MAX as int
}

/// The index of the first occurrence of `b`, or `-1` when `b` is absent.
pub open spec fn first_byte_at(s: Seq<u8>, b: u8) -> int
    decreases s.len(),
{
    if s.len() == 0 {
        -1
    } else if s[0] == b {
        0
    } else {
        let r = first_byte_at(s.drop_first(), b);
        if r < 0 {
            -1
        } else {
            1 + r
        }
    }
}

/// The index of the first occurrence of `b` at or after `from`.
pub fn find_first(v: &Vec<u8>, from: usize, b: u8) -> (r: Option<usize>)
    requires
        from <= v@.len(),
    ensures
        r is Some ==> from <= r->0 < v@.len() && v@[r->0 as int] == b && forall|j: int|
            from <= j < r->0 ==> v@[j] != b,
        r is None ==> forall|j: int| from <= j < v@.len() ==> v@[j] != b,
        r is Some ==> first_byte_at(v@.skip(from as int), b) == r->0 - from,
        r is None ==> first_byte_at(v@.skip(from as int), b) == -1,
{
    let n: usize = v.len();
    let mut i: usize = from;
    while i < n
        invariant
            n == v@.len(),
            from <= i <= n,
            forall|j: int| from <= j < i ==> v@[j] != b,
        decreases n - i,
    {
        if v[i] == b {
            proof {
                lemma_first_byte_window(v@, b, from as int, i as int);
            }
            return Some(i);
        }
        i = i + 1;
    }
    proof {
        lemma_first_byte_absent(v@, b, from as int);
    }
    None
}

/// Where byte `b` first stands at `at` within the suffix from `from`, the
/// suffix's first occurrence is exactly `at - from`.
proof fn lemma_first_byte_window(s: Seq<u8>, b: u8, from: int, at: int)
    requires
        0 <= from <= at < s.len(),
        s[at] == b,
        forall|j: int| from <= j < at ==> s[j] != b,
    ensures
        first_byte_at(s.skip(from), b) == at - from,
    decreases at - from,
{
    let rest = s.skip(from);
    assert(rest[0] == s[from]);
    if from < at {
        lemma_first_byte_window(s, b, from + 1, at);
        assert(rest.drop_first() =~= s.skip(from + 1));
    }
}

/// Where byte `b` never stands in the suffix from `from`, the suffix has no
/// first occurrence.
proof fn lemma_first_byte_absent(s: Seq<u8>, b: u8, from: int)
    requires
        0 <= from <= s.len(),
        forall|j: int| from <= j < s.len() ==> s[j] != b,
    ensures
        first_byte_at(s.skip(from), b) == -1,
    decreases s.len() - from,
{
    let rest = s.skip(from);
    if from < s.len() {
        assert(rest[0] == s[from]);
        lemma_first_byte_absent(s, b, from + 1);
        assert(rest.drop_first() =~= s.skip(from + 1));
    }
}

/// The bytes between `from` and `to`.
pub fn copy_range(v: &Vec<u8>, from: usize, to: usize) -> (r: Vec<u8>)
    requires
        from <= to <= v@.len(),
    ensures
        r@ == v@.subrange(from as int, to as int),
{
    let mut r: Vec<u8> = Vec::new();
    let mut i: usize = from;
    while i < to
        invariant
            from <= i <= to <= v@.len(),
            r@ =~= v@.subrange(from as int, i as int),
        decreases to - i,
    {
        r.push(v[i]);
        i = i + 1;
    }
    r
}

/// The maximal runs of non-space bytes, in order; spaces separate tokens and
/// empty tokens are dropped.
pub open spec fn space_tokens(s: Seq<u8>) -> Seq<Seq<u8>>
    decreases s.len() via space_tokens_dec
{
    if s.len() == 0 {
        Seq::empty()
    } else if s[0] == 32 {
        space_tokens(s.drop_first())
    } else {
        let n = token_len(s);
        seq![s.take(n)] + space_tokens(s.skip(n))
    }
}

#[via_fn]
proof fn space_tokens_dec(s: Seq<u8>) {
    if s.len() > 0 && s[0] != 32 {
        lemma_token_len_bounds(s);
    }
}

/// The length of the token at the head of `s`: bytes up to the first space.
pub open spec fn token_len(s: Seq<u8>) -> int
    decreases s.len(),
{
    if s.len() == 0 || s[0] == 32 {
        0
    } else {
        1 + token_len(s.drop_first())
    }
}

proof fn lemma_token_len_bounds(s: Seq<u8>)
    ensures
        0 <= token_len(s) <= s.len(),
        s.len() > 0 && s[0] != 32 ==> token_len(s) >= 1,
    decreases s.len(),
{
    if s.len() > 0 && s[0] != 32 {
        lemma_token_len_bounds(s.drop_first());
    }
}

/// Splits `bytes` into its space-separated tokens.
pub fn split_spaces(bytes: &[u8]) -> (r: Vec<Vec<u8>>)
    ensures
        r@.map_values(|t: Vec<u8>| t@) == space_tokens(bytes@),
{
    let n: usize = bytes.len();
    let mut r: Vec<Vec<u8>> = Vec::new();
    let mut i: usize = 0;
    proof {
        assert(bytes@.skip(0) =~= bytes@);
        assert(r@.map_values(|t: Vec<u8>| t@) + space_tokens(bytes@) =~= space_tokens(bytes@));
    }
    while i < n
        invariant
            n == bytes@.len(),
            i <= n,
            r@.map_values(|t: Vec<u8>| t@) + space_tokens(bytes@.skip(i as int)) =~= space_tokens(
                bytes@,
            ),
        decreases n - i,
    {
        if bytes[i] == 32 {
            proof {
                assert(bytes@.skip(i as int).drop_first() =~= bytes@.skip(i + 1));
            }
            i = i + 1;
        } else {
            let mut j: usize = i;
            while j < n && bytes[j] != 32
                invariant
                    n == bytes@.len(),
                    i <= j <= n,
                    bytes@[i as int] != 32,
                    forall|t: int| i <= t < j ==> bytes@[t] != 32,
                decreases n - j,
            {
                j = j + 1;
            }
            proof {
                lemma_token_len_exact(bytes@, i as int, j as int);
            }
            let mut tok: Vec<u8> = Vec::new();
            let mut t: usize = i;
            while t < j
                invariant
                    i <= t <= j <= n,
                    n == bytes@.len(),
                    tok@ =~= bytes@.subrange(i as int, t as int),
                decreases j - t,
            {
                tok.push(bytes[t]);
                t = t + 1;
            }
            proof {
                let rest = bytes@.skip(i as int);
                assert(tok@ =~= rest.take(j - i));
                assert(rest.skip(j - i) =~= bytes@.skip(j as int));
                let ghost before = r@.map_values(|t2: Vec<u8>| t2@);
                assert(space_tokens(rest) == seq![rest.take(j - i)] + space_tokens(
                    rest.skip(j - i),
                ));
            }
            let ghost prev = r@;
            r.push(tok);
            proof {
                assert(r@.map_values(|t2: Vec<u8>| t2@) =~= prev.map_values(|t2: Vec<u8>| t2@)
                    + seq![bytes@.subrange(i as int, j as int)]);
            }
            i = j;
        }
    }
    proof {
        assert(space_tokens(bytes@.skip(n as int)) =~= Seq::<Seq<u8>>::empty());
        assert(r@.map_values(|t: Vec<u8>| t@) =~= space_tokens(bytes@));
    }
    r
}

/// The values of a list of number tokens, or `None` when any token is not a
/// valid number.
pub open spec fn token_values(ts: Seq<Seq<u8>>) -> Option<Seq<int>>
    decreases ts.len(),
{
    if ts.len() == 0 {
        Some(Seq::empty())
    } else {
        match token_values(ts.drop_last()) {
            Option::None => None,
            Option::Some(vs) => if valid_number(ts.last()) {
                Some(vs.push(dec_value(ts.last())))
            } else {
                None
            },
        }
    }
}

/// `None` as soon as a prefix of the tokens fails to parse.
proof fn lemma_token_values_none(ts: Seq<Seq<u8>>, i: int)
    requires
        0 <= i <= ts.len(),
        token_values(ts.take(i)) is None,
    ensures
        token_values(ts) is None,
    decreases ts.len() - i,
{
    if i < ts.len() {
        assert(ts.take(i + 1).drop_last() =~= ts.take(i));
        lemma_token_values_none(ts, i + 1);
    } else {
        assert(ts.take(i) =~= ts);
    }
}

/// Parses every token as a number, or fails on the first that is none.
pub fn parse_all(toks: &Vec<Vec<u8>>) -> (r: Option<Vec<usize>>)
    ensures
        ({
            let ts = toks@.map_values(|t: Vec<u8>| t@);
            &&& r is Some <==> token_values(ts) is Some
            &&& r is Some ==> r->0@.map_values(|x: usize| x as int) == token_values(ts)->0
        }),
{
    let n: usize = toks.len();
    let mut out: Vec<usize> = Vec::new();
    let mut i: usize = 0;
    while i < n
        invariant
            n == toks@.len(),
            i <= n,
            ({
                let ts = toks@.map_values(|t: Vec<u8>| t@);
                &&& token_values(ts.take(i as int)) is Some
                &&& out@.map_values(|x: usize| x as int) == token_values(ts.take(i as int))->0
            }),
        decreases n - i,
    {
        let ghost ts = toks@.map_values(|t: Vec<u8>| t@);
        proof {
            assert(ts.take(i + 1).drop_last() =~= ts.take(i as int));
            assert(ts.take(i + 1).last() == ts[i as int]);
        }
        let parsed = parse_usize(toks[i].as_slice());
        match parsed {
            Option::Some(v) => {
                let ghost before = out@;
                out.push(v);
                proof {
                    assert(out@.map_values(|x: usize| x as int) =~= before.map_values(
                        |x: usize| x as int,
                    ).push(v as int));
                }
            },
            Option::None => {
                proof {
                    assert(token_values(ts.take(i + 1)) is None);
                    lemma_token_values_none(ts, i + 1);
                }
                return None;
            },
        }
        i = i + 1;
    }
    proof {
        let ts = toks@.map_values(|t: Vec<u8>| t@);
        assert(ts.take(n as int) =~= ts);
    }
    Some(out)
}

/// The length of the head chunk of `s`: bytes up to the first `sep`.
pub open spec fn chunk_len(s: Seq<u8>, sep: u8) -> int
    decreases s.len(),
{
    if s.len() == 0 || s[0] == sep {
        0
    } else {
        1 + chunk_len(s.drop_first(), sep)
    }
}

proof fn lemma_chunk_len_bounds(s: Seq<u8>, sep: u8)
    ensures
        0 <= chunk_len(s, sep) <= s.len(),
    decreases s.len(),
{
    if s.len() > 0 && s[0] != sep {
        lemma_chunk_len_bounds(s.drop_first(), sep);
    }
}

/// The chunks of `s` between occurrences of `sep`, in order, empty chunks
/// kept: one chunk more than there are separators.
pub open spec fn split_at_byte(s: Seq<u8>, sep: u8) -> Seq<Seq<u8>>
    decreases s.len() via split_at_byte_dec
{
    let n = chunk_len(s, sep);
    if n == s.len() {
        seq![s]
    } else {
        seq![s.take(n)] + split_at_byte(s.skip(n + 1), sep)
    }
}

#[via_fn]
proof fn split_at_byte_dec(s: Seq<u8>, sep: u8) {
    lemma_chunk_len_bounds(s, sep);
}

/// Within `s`, the head chunk of the suffix from `i` is exactly `j - i`
/// bytes long when byte `j` is the first separator at or after `i` (or the
/// end of the bytes).
proof fn lemma_chunk_len_exact(s: Seq<u8>, sep: u8, i: int, j: int)
    requires
        0 <= i <= j <= s.len(),
        forall|t: int| i <= t < j ==> s[t] != sep,
        j == s.len() || s[j] == sep,
    ensures
        chunk_len(s.skip(i), sep) == j - i,
    decreases j - i,
{
    if i < j {
        lemma_chunk_len_exact(s, sep, i + 1, j);
        assert(s.skip(i).drop_first() =~= s.skip(i + 1));
        assert(s.skip(i)[0] == s[i]);
    } else {
        let rest = s.skip(i);
        if rest.len() > 0 {
            assert(rest[0] == s[i]);
        }
    }
}

/// Splits `bytes` at every occurrence of `sep`, keeping empty chunks.
pub fn split_byte(bytes: &[u8], sep: u8) -> (r: Vec<Vec<u8>>)
    ensures
        r@.map_values(|t: Vec<u8>| t@) == split_at_byte(bytes@, sep),
{
    let n: usize = bytes.len();
    let mut r: Vec<Vec<u8>> = Vec::new();
    let mut i: usize = 0;
    let mut done: bool = false;
    proof {
        assert(bytes@.skip(0) =~= bytes@);
        assert(r@.map_values(|t: Vec<u8>| t@) + split_at_byte(bytes@, sep) =~= split_at_byte(
            bytes@,
            sep,
        ));
    }
    while !done
        invariant
            n == bytes@.len(),
            i <= n,
            !done ==> r@.map_values(|t: Vec<u8>| t@) + split_at_byte(bytes@.skip(i as int), sep)
                =~= split_at_byte(bytes@, sep),
            done ==> r@.map_values(|t: Vec<u8>| t@) =~= split_at_byte(bytes@, sep),
        decreases (if done { 0int } else { 1int }), n - i,
    {
        let mut j: usize = i;
        while j < n && bytes[j] != sep
            invariant
                n == bytes@.len(),
                i <= j <= n,
                forall|t: int| i <= t < j ==> bytes@[t] != sep,
            decreases n - j,
        {
            j = j + 1;
        }
        proof {
            lemma_chunk_len_exact(bytes@, sep, i as int, j as int);
        }
        let mut chunk: Vec<u8> = Vec::new();
        let mut t: usize = i;
        while t < j
            invariant
                i <= t <= j <= n,
                n == bytes@.len(),
                chunk@ =~= bytes@.subrange(i as int, t as int),
            decreases j - t,
        {
            chunk.push(bytes[t]);
            t = t + 1;
        }
        proof {
            let rest = bytes@.skip(i as int);
            assert(chunk@ =~= rest.take(j - i));
            if j < n {
                assert(rest.skip(j - i + 1) =~= bytes@.skip(j + 1));
                assert(split_at_byte(rest, sep) == seq![rest.take(j - i)] + split_at_byte(
                    rest.skip(j - i + 1),
                    sep,
                ));
            } else {
                assert(rest.take(j - i) =~= rest);
                assert(split_at_byte(rest, sep) == seq![rest]);
            }
        }
        let ghost prev = r@;
        r.push(chunk);
        proof {
            assert(r@.map_values(|t2: Vec<u8>| t2@) =~= prev.map_values(|t2: Vec<u8>| t2@)
                + seq![bytes@.subrange(i as int, j as int)]);
        }
        if j < n {
            i = j + 1;
        } else {
            done = true;
        }
    }
    r
}

/// Within `s`, the head token is exactly `j` bytes long when byte `j` is the
/// first space at or after the head.
proof fn lemma_token_len_grows(s: Seq<u8>, i: int, j: int)
    requires
        0 <= i < j <= s.len(),
        forall|t: int| i <= t < j ==> s[t] != 32,
    ensures
        token_len(s.skip(i)) >= j - i,
    decreases j - i,
{
    if i + 1 < j {
        lemma_token_len_grows(s, i + 1, j);
    }
    assert(s.skip(i).drop_first() =~= s.skip(i + 1));
    lemma_token_len_bounds(s.skip(i + 1));
    assert(s.skip(i)[0] == s[i]);
}

/// The head token of `s.skip(i)` ends exactly where the next space stands
/// (or at the end of the bytes).
proof fn lemma_token_len_exact(s: Seq<u8>, i: int, j: int)
    requires
        0 <= i <= j <= s.len(),
        forall|t: int| i <= t < j ==> s[t] != 32,
        j == s.len() || s[j] == 32,
    ensures
        token_len(s.skip(i)) == j - i,
    decreases j - i,
{
    if i < j {
        lemma_token_len_exact(s, i + 1, j);
        assert(s.skip(i).drop_first() =~= s.skip(i + 1));
    } else {
        let rest = s.skip(i);
        if rest.len() > 0 {
            assert(rest[0] == s[i]);
        }
    }
}

} // verus!
