//! Scratchcard tickets: winning numbers, owned numbers, and what a card is
//! worth.
//!
//! A card line reads `Card N: w1 w2 ... | n1 n2 ...`.  Its worth doubles for
//! every owned number beyond the first that appears among the winning ones.

use vstd::prelude::*;
use crate::text;

verus! {

/// What a card line means: the winning numbers between `:` and `|`, and the
/// owned numbers after `|`; `None` when either marker is missing or a token
/// is not a valid number.
pub open spec fn ticket_of_bytes(b: Seq<u8>) -> Option<(Seq<int>, Seq<int>)> {
    let ci = text::first_byte_at(b, 58);
    if ci < 0 {
        None
    } else {
        let rest = b.skip(ci + 1);
        let pi = text::first_byte_at(rest, 124);
        if pi < 0 {
            None
        } else {
            let ws = text::token_values(text::space_tokens(rest.take(pi)));
            let ns = text::token_values(text::space_tokens(rest.skip(pi + 1)));
            match (ws, ns) {
                (Option::Some(w), Option::Some(n)) => Some((w, n)),
                _ => None,
            }
        }
    }
}

/// How many of the owned numbers appear among the winning ones.
pub open spec fn count_matches(ws: Seq<usize>, ns: Seq<usize>) -> int
    decreases ns.len(),
{
    if ns.len() == 0 {
        0
    } else {
        count_matches(ws, ns.drop_last()) + if ws.contains(ns.last()) {
            1int
        } else {
            0int
        }
    }
}

/// A card's worth: nothing without a match, else doubled for every further
/// match.
pub open spec fn worth_of(m: int) -> int {
    if m <= 0 {
        0
    } else {
        vstd::arithmetic::power2::pow2((m - 1) as nat) as int
    }
}

proof fn lemma_count_matches_bounds(ws: Seq<usize>, ns: Seq<usize>)
    ensures
        0 <= count_matches(ws, ns) <= ns.len(),
    decreases ns.len(),
{
    if ns.len() > 0 {
        lemma_count_matches_bounds(ws, ns.drop_last());
    }
}

proof fn lemma_count_matches_prefix(ws: Seq<usize>, ns: Seq<usize>, i: int)
    requires
        0 <= i <= ns.len(),
    ensures
        count_matches(ws, ns.take(i)) <= count_matches(ws, ns),
    decreases ns.len() - i,
{
    if i < ns.len() {
        lemma_count_matches_prefix(ws, ns, i + 1);
        assert(ns.take(i + 1).drop_last() =~= ns.take(i));
        assert(ns.take(i + 1).last() == ns[i]);
    } else {
        assert(ns.take(i) =~= ns);
    }
}

/// The match counts as plain integers.
pub open spec fn match_counts(matches: Seq<usize>) -> Seq<int> {
    matches.map_values(|x: usize| x as int)
}

/// One row of the copy cascade: every card within `matches[i]` places below
/// card `i` gains as many copies as card `i` has.
pub open spec fn bump_row(m: Seq<int>, matches: Seq<int>, i: int) -> Seq<int> {
    Seq::new(m.len(), |j: int| if i < j <= i + matches[i] { m[j] + m[i] } else { m[j] })
}

/// The copy counts after the first `i` cards have handed out their copies;
/// every card starts as a single original.
pub open spec fn copies_after(matches: Seq<int>, i: int) -> Seq<int>
    decreases i,
{
    if i <= 0 {
        Seq::new(matches.len() as nat, |j: int| 1int)
    } else {
        bump_row(copies_after(matches, i - 1), matches, i - 1)
    }
}

/// The sum over all cards of its match count times its final copy count.
pub open spec fn match_copy_sum(matches: Seq<int>, m: Seq<int>) -> int
    decreases matches.len(),
{
    if matches.len() == 0 {
        0
    } else {
        match_copy_sum(matches.drop_last(), m.drop_last()) + matches.last() * m.last()
    }
}

/// How many scratchcards the cascade ends with: the originals plus, for each
/// card, its matches times its copies.
pub open spec fn total_cards(matches: Seq<int>) -> int {
    matches.len() + match_copy_sum(matches, copies_after(matches, matches.len() as int))
}

proof fn lemma_copies_len(matches: Seq<int>, i: int)
    requires
        0 <= i,
    ensures
        copies_after(matches, i).len() == matches.len(),
    decreases i,
{
    if i > 0 {
        lemma_copies_len(matches, i - 1);
    }
}

proof fn lemma_copies_nonneg(matches: Seq<int>, i: int)
    requires
        0 <= i <= matches.len(),
    ensures
        forall|j: int|
            0 <= j < matches.len() ==> #[trigger] copies_after(matches, i)[j] >= 1,
    decreases i,
{
    lemma_copies_len(matches, i);
    if i > 0 {
        lemma_copies_nonneg(matches, i - 1);
        lemma_copies_len(matches, i - 1);
        assert forall|j: int|
            0 <= j < matches.len() implies #[trigger] copies_after(matches, i)[j] >= 1 by {
            assert(copies_after(matches, i) == bump_row(copies_after(matches, i - 1), matches, i
                - 1));
            assert(copies_after(matches, i - 1)[j] >= 1);
            assert(copies_after(matches, i - 1)[i - 1] >= 1);
        }
    }
}

/// Later stages of the cascade never lower a card's copy count.
proof fn lemma_copies_monotone(matches: Seq<int>, i: int, k: int)
    requires
        0 <= i <= k <= matches.len(),
    ensures
        forall|j: int|
            0 <= j < matches.len() ==> #[trigger] copies_after(matches, i)[j] <= copies_after(
                matches,
                k,
            )[j],
    decreases k - i,
{
    if i < k {
        lemma_copies_monotone(matches, i + 1, k);
        lemma_copies_nonneg(matches, i);
        lemma_copies_len(matches, i);
        lemma_copies_len(matches, i + 1);
        assert forall|j: int|
            0 <= j < matches.len() implies #[trigger] copies_after(matches, i)[j] <= copies_after(
            matches,
            k,
        )[j] by {
            assert(copies_after(matches, i + 1) == bump_row(copies_after(matches, i), matches, i));
            assert(copies_after(matches, i)[i] >= 1);
            assert(copies_after(matches, i + 1)[j] <= copies_after(matches, k)[j]);
        }
    }
}

proof fn lemma_match_copy_sum_nonneg(matches: Seq<int>, m: Seq<int>)
    requires
        matches.len() == m.len(),
        forall|j: int| 0 <= j < matches.len() ==> #[trigger] matches[j] >= 0,
        forall|j: int| 0 <= j < m.len() ==> #[trigger] m[j] >= 0,
    ensures
        match_copy_sum(matches, m) >= 0,
    decreases matches.len(),
{
    if matches.len() > 0 {
        lemma_match_copy_sum_nonneg(matches.drop_last(), m.drop_last());
        assert(matches.last() * m.last() >= 0) by (nonlinear_arith)
            requires matches.last() >= 0 && m.last() >= 0;
    }
}

proof fn lemma_match_copy_sum_prefix(matches: Seq<int>, m: Seq<int>, i: int)
    requires
        matches.len() == m.len(),
        0 <= i <= matches.len(),
        forall|j: int| 0 <= j < matches.len() ==> #[trigger] matches[j] >= 0,
        forall|j: int| 0 <= j < m.len() ==> #[trigger] m[j] >= 0,
    ensures
        match_copy_sum(matches.take(i), m.take(i)) <= match_copy_sum(matches, m),
        match_copy_sum(matches.take(i), m.take(i)) >= 0,
    decreases matches.len() - i,
{
    assert forall|j: int|
        0 <= j < matches.take(i).len() implies #[trigger] matches.take(i)[j] >= 0 by {}
    assert forall|j: int| 0 <= j < m.take(i).len() implies #[trigger] m.take(i)[j] >= 0 by {}
    lemma_match_copy_sum_nonneg(matches.take(i), m.take(i));
    if i < matches.len() {
        lemma_match_copy_sum_prefix(matches, m, i + 1);
        assert(matches.take(i + 1).drop_last() =~= matches.take(i));
        assert(m.take(i + 1).drop_last() =~= m.take(i));
        assert(matches.take(i + 1).last() == matches[i]);
        assert(m.take(i + 1).last() == m[i]);
        assert(matches[i] * m[i] >= 0) by (nonlinear_arith)
            requires matches[i] >= 0 && m[i] >= 0;
    } else {
        assert(matches.take(i) =~= matches);
        assert(m.take(i) =~= m);
    }
}

/// Runs the copy cascade: each card hands one copy of each of the next
/// `matches[i]` cards to every copy of itself, and the result counts all
/// cards held at the end.  The match counts must stay on the table, and the
/// cascade's copy counts and total must fit the machine word.
pub fn total_scratchcards(matches: &Vec<usize>) -> (r: usize)
    requires
        forall|i: int|
            0 <= i < matches@.len() ==> i + 1 + (#[trigger] matches@[i]) as int <= matches@.len(),
        forall|j: int|
            0 <= j < matches@.len() ==> #[trigger] copies_after(
                match_counts(matches@),
                matches@.len() as int,
            )[j] <= usize::MAX as int,
        total_cards(match_counts(matches@)) <= usize::MAX as int,
    ensures
        r == total_cards(match_counts(matches@)),
{
    let ghost mv = match_counts(matches@);
    let n: usize = matches.len();
    let mut copies: Vec<usize> = vec![1; n];
    proof {
        assert(copies@.map_values(|x: usize| x as int) =~= copies_after(mv, 0));
    }
    let mut i: usize = 0;
    while i < n
        invariant
            n == matches@.len(),
            mv == match_counts(matches@),
            i <= n,
            copies@.len() == n,
            forall|t: int|
                0 <= t < n ==> t + 1 + (#[trigger] matches@[t]) as int <= n,
            forall|j: int|
                0 <= j < n ==> #[trigger] copies_after(mv, n as int)[j] <= usize::MAX as int,
            copies@.map_values(|x: usize| x as int) == copies_after(mv, i as int),
        decreases n - i,
    {
        let count: usize = matches[i];
        let base: usize = copies[i];
        let mut im: usize = i + 1;
        while im <= i + count
            invariant
                n == matches@.len(),
                mv == match_counts(matches@),
                i < n,
                count == matches@[i as int],
                i + 1 + count <= n,
                i + 1 <= im <= i + 1 + count,
                copies@.len() == n,
                base == copies_after(mv, i as int)[i as int],
                forall|j: int|
                    0 <= j < n ==> #[trigger] copies_after(mv, n as int)[j] <= usize::MAX as int,
                copies@.map_values(|x: usize| x as int) == Seq::new(
                    n as nat,
                    |j: int| if i < j < im { copies_after(mv, i as int)[j] + base } else {
                        copies_after(mv, i as int)[j]
                    },
                ),
        decreases i + 1 + count - im,
    {
            proof {
                lemma_copies_monotone(mv, i + 1, n as int);
                lemma_copies_nonneg(mv, i as int);
                lemma_copies_len(mv, i as int);
                lemma_copies_len(mv, i + 1);
                assert(copies_after(mv, i + 1) == bump_row(copies_after(mv, i as int), mv, i as int));
                assert(mv[i as int] == count as int);
                assert(copies_after(mv, i + 1)[im as int] == copies_after(mv, i as int)[im as int]
                    + base);
                assert(copies@.map_values(|x: usize| x as int)[im as int] == copies_after(
                    mv,
                    i as int,
                )[im as int]);
            }
            let bumped: usize = copies[im] + base;
            let ghost before = copies@;
            copies.set(im, bumped);
            proof {
                assert forall|j: int|
                    0 <= j < n implies copies@.map_values(|x: usize| x as int)[j] == (if i < j < im
                    + 1 {
                    copies_after(mv, i as int)[j] + base
                } else {
                    copies_after(mv, i as int)[j]
                }) by {
                    if j != im {
                        assert(copies@[j] == before[j]);
                        assert(before.map_values(|x: usize| x as int)[j] == copies@.map_values(
                            |x: usize| x as int,
                        )[j]);
                    }
                }
                assert(copies@.map_values(|x: usize| x as int) =~= Seq::new(
                    n as nat,
                    |j: int| if i < j < im + 1 { copies_after(mv, i as int)[j] + base } else {
                        copies_after(mv, i as int)[j]
                    },
                ));
            }
            im = im + 1;
        }
        proof {
            assert(copies@.map_values(|x: usize| x as int) =~= bump_row(
                copies_after(mv, i as int),
                mv,
                i as int,
            ));
            assert(copies@.map_values(|x: usize| x as int) == copies_after(mv, i + 1));
        }
        i = i + 1;
    }
    let mut total: usize = n;
    let ghost final_copies = copies_after(mv, n as int);
    proof {
        lemma_copies_nonneg(mv, n as int);
        lemma_match_copy_sum_prefix(mv, final_copies, 0);
    }
    let mut t: usize = 0;
    while t < n
        invariant
            n == matches@.len(),
            mv == match_counts(matches@),
            t <= n,
            copies@.len() == n,
            final_copies == copies_after(mv, n as int),
            copies@.map_values(|x: usize| x as int) == final_copies,
            total_cards(mv) <= usize::MAX as int,
            total == n + match_copy_sum(mv.take(t as int), final_copies.take(t as int)),
        decreases n - t,
    {
        proof {
            assert(mv.take(t + 1).drop_last() =~= mv.take(t as int));
            assert(final_copies.take(t + 1).drop_last() =~= final_copies.take(t as int));
            assert(mv.take(t + 1).last() == mv[t as int]);
            assert(final_copies.take(t + 1).last() == final_copies[t as int]);
            lemma_copies_nonneg(mv, n as int);
            assert(forall|j: int| 0 <= j < n ==> #[trigger] mv[j] >= 0);
            lemma_match_copy_sum_prefix(mv, final_copies, t + 1);
            lemma_match_copy_sum_prefix(mv, final_copies, t as int);
            assert(copies@.map_values(|x: usize| x as int)[t as int] == final_copies[t as int]);
        }
        let term: usize = matches[t] * copies[t];
        total = total + term;
        t = t + 1;
    }
    proof {
        assert(mv.take(n as int) =~= mv);
        assert(final_copies.take(n as int) =~= final_copies);
    }
    total
}

/// One scratchcard.
pub struct Ticket {
    /// The numbers that win, as listed before the `|` marker.
    pub wining_numbers: Vec<usize>,
    /// The numbers the card holds, as listed after the `|` marker.
    pub numbers: Vec<usize>,
}

impl Ticket {
    /// Reads a ticket off a card line.  Fails exactly when the line is not
    /// ASCII, a marker is missing, or a number token is malformed or too
    /// large.
    pub fn parse(line: &str) -> (r: Option<Ticket>)
        ensures
            !vstd::utf8::is_ascii_chars(line@) ==> r is None,
            vstd::utf8::is_ascii_chars(line@) ==> {
                let parsed = ticket_of_bytes(text::byte_view(line@));
                &&& r is Some <==> parsed is Some
                &&& r is Some ==> {
                    let t = r->0;
                    let pair = parsed->0;
                    &&& t.wining_numbers@.map_values(|x: usize| x as int) == pair.0
                    &&& t.numbers@.map_values(|x: usize| x as int) == pair.1
                }
            },
    {
        let bytes_opt = text::ascii_bytes(line);
        let bytes: Vec<u8> = match bytes_opt {
            Option::Some(b) => b,
            Option::None => {
                return None;
            },
        };
        proof {
            assert(bytes@.skip(0) =~= bytes@);
        }
        let ci = match text::find_first(&bytes, 0, 58) {
            Option::Some(i) => i,
            Option::None => {
                return None;
            },
        };
        let pi = match text::find_first(&bytes, ci + 1, 124) {
            Option::Some(i) => i,
            Option::None => {
                return None;
            },
        };
        proof {
            let b = bytes@;
            let rest = b.skip(ci + 1);
            assert(b.skip(0) =~= b);
            assert(rest.take(pi - (ci + 1)) =~= b.subrange(ci + 1, pi as int));
            assert(rest.skip(pi - (ci + 1) + 1) =~= b.skip(pi + 1));
            assert(b.skip(pi + 1) =~= b.subrange(pi + 1, b.len() as int));
            assert(text::first_byte_at(rest, 124) == pi - (ci + 1));
        }
        let wseg: Vec<u8> = text::copy_range(&bytes, ci + 1, pi);
        let nseg: Vec<u8> = text::copy_range(&bytes, pi + 1, bytes.len());
        let wtoks = text::split_spaces(wseg.as_slice());
        let ntoks = text::split_spaces(nseg.as_slice());
        let ws = match text::parse_all(&wtoks) {
            Option::Some(v) => v,
            Option::None => {
                return None;
            },
        };
        let ns = match text::parse_all(&ntoks) {
            Option::Some(v) => v,
            Option::None => {
                return None;
            },
        };
        Some(Ticket { wining_numbers: ws, numbers: ns })
    }

    /// The number of owned numbers that appear among the winning numbers.
    pub fn get_matching_count(&self) -> (r: usize)
        ensures
            r == count_matches(self.wining_numbers@, self.numbers@),
    {
        let n: usize = self.numbers.len();
        let mut count: usize = 0;
        let mut i: usize = 0;
        while i < n
            invariant
                n == self.numbers@.len(),
                i <= n,
                count <= i,
                count == count_matches(self.wining_numbers@, self.numbers@.take(i as int)),
            decreases n - i,
        {
            proof {
                assert(self.numbers@.take(i + 1).drop_last() =~= self.numbers@.take(i as int));
                assert(self.numbers@.take(i + 1).last() == self.numbers@[i as int]);
            }
            if contains_number(&self.wining_numbers, self.numbers[i]) {
                count = count + 1;
            }
            i = i + 1;
        }
        proof {
            assert(self.numbers@.take(n as int) =~= self.numbers@);
        }
        count
    }

    /// The card's worth: zero without a match, else one doubled for every
    /// match beyond the first.
    pub fn get_ticket_worth(&self) -> (r: usize)
        requires
            worth_of(count_matches(self.wining_numbers@, self.numbers@)) <= usize::MAX as int,
        ensures
            r == worth_of(count_matches(self.wining_numbers@, self.numbers@)),
    {
        let n: usize = self.numbers.len();
        let mut worth: usize = 0;
        let mut i: usize = 0;
        while i < n
            invariant
                n == self.numbers@.len(),
                i <= n,
                worth == worth_of(count_matches(self.wining_numbers@, self.numbers@.take(i as int))),
                worth_of(count_matches(self.wining_numbers@, self.numbers@)) <= usize::MAX as int,
            decreases n - i,
        {
            proof {
                assert(self.numbers@.take(i + 1).drop_last() =~= self.numbers@.take(i as int));
                assert(self.numbers@.take(i + 1).last() == self.numbers@[i as int]);
                lemma_count_matches_prefix(self.wining_numbers@, self.numbers@, i + 1);
                lemma_count_matches_bounds(self.wining_numbers@, self.numbers@.take(i as int));
            }
            if contains_number(&self.wining_numbers, self.numbers[i]) {
                proof {
                    let m = count_matches(self.wining_numbers@, self.numbers@.take(i as int));
                    let total = count_matches(self.wining_numbers@, self.numbers@);
                    vstd::arithmetic::power2::lemma2_to64();
                    assert(m + 1 <= total);
                    if m > 0 {
                        vstd::arithmetic::power2::lemma_pow2_unfold(m as nat);
                        vstd::arithmetic::power2::lemma_pow2_pos((m - 1) as nat);
                    }
                    if m < total - 1 {
                        vstd::arithmetic::power2::lemma_pow2_strictly_increases(
                            m as nat, (total - 1) as nat);
                    }
                }
                if worth == 0 {
                    worth = 1;
                } else {
                    worth = worth * 2;
                }
            }
            i = i + 1;
        }
        proof {
            assert(self.numbers@.take(n as int) =~= self.numbers@);
        }
        worth
    }
}

/// True when `v` holds `x`.
fn contains_number(v: &Vec<usize>, x: usize) -> (r: bool)
    ensures
        r == v@.contains(x),
{
    let n: usize = v.len();
    let mut i: usize = 0;
    while i < n
        invariant
            n == v@.len(),
            i <= n,
            forall|j: int| 0 <= j < i ==> v@[j] != x,
        decreases n - i,
    {
        if v[i] == x {
            return true;
        }
        i = i + 1;
    }
    proof {
        assert(!v@.contains(x));
    }
    false
}

} // verus!
