//! Rounds of the cube-drawing game: how many red, blue and green cubes a
//! round shows, whether a round fits inside a limit, and the running
//! maximum over a game's rounds.

use vstd::prelude::*;
use crate::text;

verus! {

/// The bytes of the colour word `red`.
pub open spec fn color_red() -> Seq<u8> {
    seq![114u8, 101u8, 100u8]
}

/// The bytes of the colour word `blue`.
pub open spec fn color_blue() -> Seq<u8> {
    seq![98u8, 108u8, 117u8, 101u8]
}

/// The bytes of the colour word `green`.
pub open spec fn color_green() -> Seq<u8> {
    seq![103u8, 114u8, 101u8, 101u8, 110u8]
}

/// Which colour a token names, as an index: red, blue, green.
pub open spec fn color_of(t: Seq<u8>) -> Option<int> {
    if t == color_red() {
        Some(0)
    } else if t == color_blue() {
        Some(1)
    } else if t == color_green() {
        Some(2)
    } else {
        None
    }
}

/// One `N colour` item applied to the counts gathered so far: the named
/// colour's count becomes `N`.  `None` when the item is not exactly a valid
/// number followed by a colour word.
pub open spec fn item_update(acc: (int, int, int), item: Seq<u8>) -> Option<(int, int, int)> {
    let ts = text::space_tokens(item);
    if ts.len() == 2 && text::valid_number(ts[0]) && color_of(ts[1]) is Some {
        let v = text::dec_value(ts[0]);
        let c = color_of(ts[1])->0;
        if c == 0 {
            Some((v, acc.1, acc.2))
        } else if c == 1 {
            Some((acc.0, v, acc.2))
        } else {
            Some((acc.0, acc.1, v))
        }
    } else {
        None
    }
}

/// The cube counts a comma-separated round segment shows, items applied in
/// order over zero counts; `None` when any item is malformed.
pub open spec fn round_items(items: Seq<Seq<u8>>) -> Option<(int, int, int)>
    decreases items.len(),
{
    if items.len() == 0 {
        Some((0, 0, 0))
    } else {
        match round_items(items.drop_last()) {
            Option::None => None,
            Option::Some(acc) => item_update(acc, items.last()),
        }
    }
}

/// What one round segment means.
pub open spec fn round_of_bytes(seg: Seq<u8>) -> Option<(int, int, int)> {
    round_items(text::split_at_byte(seg, 44))
}

/// The rounds of all semicolon-separated segments, or `None` when any round
/// is malformed.
pub open spec fn rounds_values(segs: Seq<Seq<u8>>) -> Option<Seq<(int, int, int)>>
    decreases segs.len(),
{
    if segs.len() == 0 {
        Some(Seq::empty())
    } else {
        match rounds_values(segs.drop_last()) {
            Option::None => None,
            Option::Some(rs) => match round_of_bytes(segs.last()) {
                Option::None => None,
                Option::Some(r) => Some(rs.push(r)),
            },
        }
    }
}

/// What a game line means: the number after the first space before `:` is
/// the game's id, and the segments after `:`, split at `;`, are its rounds.
pub open spec fn game_of_bytes(b: Seq<u8>) -> Option<(int, Seq<(int, int, int)>)> {
    let ci = text::first_byte_at(b, 58);
    if ci < 0 {
        None
    } else {
        let head = b.take(ci);
        let si = text::first_byte_at(head, 32);
        if si < 0 {
            None
        } else {
            let id_seg = head.skip(si + 1);
            if !text::valid_number(id_seg) {
                None
            } else {
                match rounds_values(text::split_at_byte(b.skip(ci + 1), 59)) {
                    Option::None => None,
                    Option::Some(rs) => Some((text::dec_value(id_seg), rs)),
                }
            }
        }
    }
}

/// One round's cube counts.
#[derive(Clone, Copy, Debug, PartialEq, Eq, Structural)]
pub struct Round {
    pub red: usize,
    pub blue: usize,
    pub green: usize,
}

impl Round {
    pub fn new(red: usize, blue: usize, green: usize) -> (r: Self)
        ensures
            r.red == red,
            r.blue == blue,
            r.green == green,
    {
        Self { red, blue, green }
    }

    /// True when this round draws no more of any colour than `other` allows.
    pub fn does_fit_into(&self, other: &Round) -> (r: bool)
        ensures
            r == (self.red <= other.red && self.blue <= other.blue && self.green <= other.green),
    {
        self.red <= other.red && self.blue <= other.blue && self.green <= other.green
    }

    /// The counts as a plain triple, for speaking of parsed rounds.
    pub open spec fn counts(self) -> (int, int, int) {
        (self.red as int, self.blue as int, self.green as int)
    }

    /// Raises each colour to `other`'s count where `other` shows more.
    pub fn update_if_lt(&mut self, other: &Round)
        ensures
            final(self).red == if old(self).red < other.red { other.red } else { old(self).red },
            final(self).blue == if old(self).blue < other.blue {
                other.blue
            } else {
                old(self).blue
            },
            final(self).green == if old(self).green < other.green {
                other.green
            } else {
                old(self).green
            },
    {
        if self.red < other.red {
            self.red = other.red;
        }
        if self.blue < other.blue {
            self.blue = other.blue;
        }
        if self.green < other.green {
            self.green = other.green;
        }
    }
}

/// The smallest cube counts that cover every listed round: the running
/// maximum of each colour, colour by colour.
pub open spec fn cover_of(rounds: Seq<Round>) -> (int, int, int)
    decreases rounds.len(),
{
    if rounds.len() == 0 {
        (0, 0, 0)
    } else {
        let acc = cover_of(rounds.drop_last());
        let last = rounds.last();
        (
            if acc.0 < last.red { last.red as int } else { acc.0 },
            if acc.1 < last.blue { last.blue as int } else { acc.1 },
            if acc.2 < last.green { last.green as int } else { acc.2 },
        )
    }
}

impl Game {
    /// True when every round of the game fits inside `limit`.
    pub fn fits_into(&self, limit: &Round) -> (r: bool)
        ensures
            r == forall|k: int|
                0 <= k < self.rounds@.len() ==> (#[trigger] self.rounds@[k]).red <= limit.red
                    && self.rounds@[k].blue <= limit.blue && self.rounds@[k].green <= limit.green,
    {
        let n: usize = self.rounds.len();
        let mut i: usize = 0;
        while i < n
            invariant
                n == self.rounds@.len(),
                i <= n,
                forall|k: int|
                    0 <= k < i ==> (#[trigger] self.rounds@[k]).red <= limit.red
                        && self.rounds@[k].blue <= limit.blue && self.rounds@[k].green
                        <= limit.green,
            decreases n - i,
        {
            if !self.rounds[i].does_fit_into(limit) {
                return false;
            }
            i = i + 1;
        }
        true
    }

    /// The smallest cube counts that cover every round of the game.
    pub fn minimal_cover(&self) -> (r: Round)
        ensures
            r.counts() == cover_of(self.rounds@),
    {
        let n: usize = self.rounds.len();
        let mut cover = Round { red: 0, blue: 0, green: 0 };
        let mut i: usize = 0;
        while i < n
            invariant
                n == self.rounds@.len(),
                i <= n,
                cover.counts() == cover_of(self.rounds@.take(i as int)),
            decreases n - i,
        {
            proof {
                assert(self.rounds@.take(i + 1).drop_last() =~= self.rounds@.take(i as int));
                assert(self.rounds@.take(i + 1).last() == self.rounds@[i as int]);
            }
            cover.update_if_lt(&self.rounds[i]);
            i = i + 1;
        }
        proof {
            assert(self.rounds@.take(n as int) =~= self.rounds@);
        }
        cover
    }
}

/// The colour a token names, as executable code.
fn color_slot(tok: &Vec<u8>) -> (r: Option<usize>)
    ensures
        r is Some <==> color_of(tok@) is Some,
        r is Some ==> r->0 == color_of(tok@)->0,
{
    if tok.len() == 3 && tok[0] == 114 && tok[1] == 101 && tok[2] == 100 {
        proof {
            assert(tok@ =~= color_red());
        }
        Some(0)
    } else if tok.len() == 4 && tok[0] == 98 && tok[1] == 108 && tok[2] == 117 && tok[3] == 101 {
        proof {
            assert(tok@ =~= color_blue());
        }
        Some(1)
    } else if tok.len() == 5 && tok[0] == 103 && tok[1] == 114 && tok[2] == 101 && tok[3] == 101
        && tok[4] == 110 {
        proof {
            assert(tok@ =~= color_green());
        }
        Some(2)
    } else {
        proof {
            if tok@ == color_red() {
                assert(tok@.len() == 3 && tok@[0] == 114 && tok@[1] == 101 && tok@[2] == 100);
            }
            if tok@ == color_blue() {
                assert(tok@.len() == 4 && tok@[0] == 98 && tok@[1] == 108 && tok@[2] == 117
                    && tok@[3] == 101);
            }
            if tok@ == color_green() {
                assert(tok@.len() == 5 && tok@[0] == 103 && tok@[1] == 114 && tok@[2] == 101
                    && tok@[3] == 101 && tok@[4] == 110);
            }
        }
        None
    }
}

/// A malformed item keeps the whole round malformed.
proof fn lemma_round_items_none(items: Seq<Seq<u8>>, i: int)
    requires
        0 <= i <= items.len(),
        round_items(items.take(i)) is None,
    ensures
        round_items(items) is None,
    decreases items.len() - i,
{
    if i < items.len() {
        assert(items.take(i + 1).drop_last() =~= items.take(i));
        lemma_round_items_none(items, i + 1);
    } else {
        assert(items.take(i) =~= items);
    }
}

/// A malformed round keeps the whole game malformed.
proof fn lemma_rounds_values_none(segs: Seq<Seq<u8>>, i: int)
    requires
        0 <= i <= segs.len(),
        rounds_values(segs.take(i)) is None,
    ensures
        rounds_values(segs) is None,
    decreases segs.len() - i,
{
    if i < segs.len() {
        assert(segs.take(i + 1).drop_last() =~= segs.take(i));
        lemma_rounds_values_none(segs, i + 1);
    } else {
        assert(segs.take(i) =~= segs);
    }
}

/// Reads one round segment: `N colour` items separated by commas, each
/// setting that colour's count.
fn parse_round(seg: &Vec<u8>) -> (r: Option<Round>)
    ensures
        r is Some <==> round_of_bytes(seg@) is Some,
        r is Some ==> r->0.counts() == round_of_bytes(seg@)->0,
{
    let items = text::split_byte(seg.as_slice(), 44);
    let n: usize = items.len();
    let mut round = Round { red: 0, blue: 0, green: 0 };
    let mut i: usize = 0;
    while i < n
        invariant
            n == items@.len(),
            i <= n,
            ({
                let iv = items@.map_values(|t: Vec<u8>| t@);
                &&& iv == text::split_at_byte(seg@, 44)
                &&& round_items(iv.take(i as int)) is Some
                &&& round.counts() == round_items(iv.take(i as int))->0
            }),
        decreases n - i,
    {
        let ghost iv = items@.map_values(|t: Vec<u8>| t@);
        proof {
            assert(iv.take(i + 1).drop_last() =~= iv.take(i as int));
            assert(iv.take(i + 1).last() == iv[i as int]);
        }
        let toks = text::split_spaces(items[i].as_slice());
        if toks.len() != 2 {
            proof {
                lemma_round_items_none(iv, i + 1);
            }
            return None;
        }
        let value = match text::parse_usize(toks[0].as_slice()) {
            Option::Some(v) => v,
            Option::None => {
                proof {
                    lemma_round_items_none(iv, i + 1);
                }
                return None;
            },
        };
        let slot = match color_slot(&toks[1]) {
            Option::Some(c) => c,
            Option::None => {
                proof {
                    lemma_round_items_none(iv, i + 1);
                }
                return None;
            },
        };
        if slot == 0 {
            round.red = value;
        } else if slot == 1 {
            round.blue = value;
        } else {
            round.green = value;
        }
        i = i + 1;
    }
    proof {
        let iv = items@.map_values(|t: Vec<u8>| t@);
        assert(iv.take(n as int) =~= iv);
    }
    Some(round)
}

/// One game: its id and the rounds it showed.
pub struct Game {
    pub id: usize,
    pub rounds: Vec<Round>,
}

/// The triples of a list of rounds.
pub open spec fn rounds_view(rounds: Seq<Round>) -> Seq<(int, int, int)> {
    rounds.map_values(|r: Round| r.counts())
}

impl Game {
    /// Reads a game line `Game N: items; items; ...`.  Fails exactly when
    /// the line is not ASCII, a marker is missing, the id is not a number,
    /// or any round item is malformed.
    pub fn parse(line: &str) -> (r: Option<Game>)
        ensures
            !vstd::utf8::is_ascii_chars(line@) ==> r is None,
            vstd::utf8::is_ascii_chars(line@) ==> {
                let parsed = game_of_bytes(text::byte_view(line@));
                &&& r is Some <==> parsed is Some
                &&& r is Some ==> {
                    let g = r->0;
                    let pair = parsed->0;
                    &&& g.id as int == pair.0
                    &&& rounds_view(g.rounds@) == pair.1
                }
            },
    {
        let bytes: Vec<u8> = match text::ascii_bytes(line) {
            Option::Some(b) => b,
            Option::None => {
                return None;
            },
        };
        proof {
            assert(bytes@.skip(0) =~= bytes@);
        }
        let ci = match text::find_first(&bytes, 0, 58) {
            Option::Some(i) => i,
            Option::None => {
                return None;
            },
        };
        let head = text::copy_range(&bytes, 0, ci);
        proof {
            assert(head@ =~= bytes@.take(ci as int));
            assert(head@.skip(0) =~= head@);
        }
        let si = match text::find_first(&head, 0, 32) {
            Option::Some(i) => i,
            Option::None => {
                return None;
            },
        };
        let id_seg = text::copy_range(&head, si + 1, head.len());
        proof {
            assert(id_seg@ =~= head@.skip(si + 1));
        }
        let id = match text::parse_usize(id_seg.as_slice()) {
            Option::Some(v) => v,
            Option::None => {
                return None;
            },
        };
        proof {
            vstd::std_specs::vec::axiom_spec_len(&bytes);
        }
        let tail = text::copy_range(&bytes, ci + 1, bytes.len());
        proof {
            assert(tail@ =~= bytes@.skip(ci + 1));
        }
        let segs = text::split_byte(tail.as_slice(), 59);
        let n: usize = segs.len();
        let mut rounds: Vec<Round> = Vec::new();
        let mut i: usize = 0;
        proof {
            let parsed = game_of_bytes(text::byte_view(line@));
            let sv = segs@.map_values(|t: Vec<u8>| t@);
            assert(parsed is Some <==> rounds_values(sv) is Some);
        }
        while i < n
            invariant
                n == segs@.len(),
                i <= n,
                vstd::utf8::is_ascii_chars(line@),
                ({
                    let parsed = game_of_bytes(text::byte_view(line@));
                    let sv = segs@.map_values(|t: Vec<u8>| t@);
                    &&& (parsed is Some <==> rounds_values(sv) is Some)
                    &&& (parsed is Some ==> ({
                        let pair = parsed->0;
                        pair.0 == id as int && pair.1 == rounds_values(sv)->0
                    }))
                    &&& rounds_values(sv.take(i as int)) is Some
                    &&& rounds_view(rounds@) == rounds_values(sv.take(i as int))->0
                }),
            decreases n - i,
        {
            let ghost sv = segs@.map_values(|t: Vec<u8>| t@);
            proof {
                assert(sv.take(i + 1).drop_last() =~= sv.take(i as int));
                assert(sv.take(i + 1).last() == sv[i as int]);
            }
            let round = match parse_round(&segs[i]) {
                Option::Some(rd) => rd,
                Option::None => {
                    proof {
                        lemma_rounds_values_none(sv, i + 1);
                    }
                    return None;
                },
            };
            let ghost before = rounds@;
            rounds.push(round);
            proof {
                assert(rounds_view(rounds@) =~= rounds_view(before).push(round.counts()));
            }
            i = i + 1;
        }
        proof {
            let sv = segs@.map_values(|t: Vec<u8>| t@);
            assert(sv.take(n as int) =~= sv);
        }
        Some(Game { id, rounds })
    }
}

} // verus!
