//! The holiday ASCII string helper: a rolling hash over the bytes of a
//! label, and the sum of the hashes of a list of instructions.

use vstd::prelude::*;
use vstd::string::StringSliceAdditionalSpecFns;
use crate::text;

verus! {

/// The rolling hash of a byte sequence: start at zero and, for each byte in
/// order, add it and multiply by seventeen, all modulo 256.
pub open spec fn hash_spec(s: Seq<u8>) -> int
    decreases s.len(),
{
    if s.len() == 0 {
        0
    } else {
        ((hash_spec(s.drop_last()) + s.last()) * 17) % 256
    }
}

/// The sum of the hashes of each string's bytes.
pub open spec fn hash_sum(rows: Seq<String>) -> int
    decreases rows.len(),
{
    if rows.len() == 0 {
        0
    } else {
        hash_sum(rows.drop_last()) + hash_spec(vstd::utf8::encode_utf8(rows.last()@))
    }
}

/// The rolling hash of a byte slice.  The result is below 256.
pub fn hash_bytes(bytes: &[u8]) -> (r: usize)
    ensures
        r == hash_spec(bytes@),
        r < 256,
{
    let n: usize = bytes.len();
    let mut acc: usize = 0;
    let mut i: usize = 0;
    while i < n
        invariant
            n == bytes@.len(),
            i <= n,
            acc < 256,
            acc == hash_spec(bytes@.take(i as int)),
        decreases n - i,
    {
        proof {
            assert(bytes@.take(i + 1).drop_last() =~= bytes@.take(i as int));
            assert(bytes@.take(i + 1).last() == bytes@[i as int]);
        }
        acc = ((acc + (bytes[i] as usize)) * 17) % 256;
        i = i + 1;
    }
    proof {
        assert(bytes@.take(n as int) =~= bytes@);
    }
    acc
}

/// The rolling hash of the bytes of `s`.  The result is below 256.
pub fn hash(s: &str) -> (r: usize)
    ensures
        r == hash_spec(s.spec_bytes()),
        r < 256,
{
    hash_bytes(s.as_bytes())
}

/// One lens instruction: a label with either a focal power to install or,
/// lacking one, an order to remove the label's lens from its box.
pub struct Lens {
    pub label: Vec<u8>,
    pub power: Option<usize>,
}

impl Lens {
    /// The lens as a plain pair, for speaking of box contents.
    pub open spec fn view_pair(self) -> (Seq<u8>, Option<int>) {
        (
            self.label@,
            match self.power {
                Option::Some(p) => Some(p as int),
                Option::None => None,
            },
        )
    }
}

/// What one instruction item means: the label before the first `=` together
/// with the power after it (no power where it does not parse, which acts as
/// a removal); with no `=`, the label before the first `-` as a removal;
/// with neither marker, the item is invalid.
pub open spec fn lens_of_bytes(item: Seq<u8>) -> Option<(Seq<u8>, Option<int>)> {
    let ei = text::first_byte_at(item, 61);
    if ei >= 0 {
        let p = item.skip(ei + 1);
        Some(
            (
                item.take(ei),
                if text::valid_number(p) {
                    Some(text::dec_value(p))
                } else {
                    None
                },
            ),
        )
    } else {
        let di = text::first_byte_at(item, 45);
        if di >= 0 {
            Some((item.take(di), None))
        } else {
            None
        }
    }
}

/// The position of `label` in a box, or `-1` where no lens carries it.
pub open spec fn label_index(bx: Seq<(Seq<u8>, Option<int>)>, label: Seq<u8>) -> int
    decreases bx.len(),
{
    if bx.len() == 0 {
        -1
    } else if bx[0].0 == label {
        0
    } else {
        let r = label_index(bx.drop_first(), label);
        if r < 0 {
            -1
        } else {
            1 + r
        }
    }
}

/// One lens applied to the boxes: in the box its label hashes to, a removal
/// takes the labelled lens out, a power replaces the labelled lens or, where
/// none carries the label, appends a new one.
pub open spec fn apply_lens(
    boxes: Seq<Seq<(Seq<u8>, Option<int>)>>,
    lens: (Seq<u8>, Option<int>),
) -> Seq<Seq<(Seq<u8>, Option<int>)>> {
    let b = hash_spec(lens.0);
    let bx = boxes[b];
    let i = label_index(bx, lens.0);
    if i >= 0 {
        if lens.1 is None {
            boxes.update(b, bx.remove(i))
        } else {
            boxes.update(b, bx.update(i, lens))
        }
    } else {
        if lens.1 is Some {
            boxes.update(b, bx.push(lens))
        } else {
            boxes
        }
    }
}

/// The 256 boxes after all instructions, applied in order to empty boxes.
pub open spec fn boxes_after(items: Seq<Seq<u8>>) -> Seq<Seq<(Seq<u8>, Option<int>)>>
    decreases items.len(),
{
    if items.len() == 0 {
        Seq::new(256, |b: int| Seq::empty())
    } else {
        apply_lens(boxes_after(items.drop_last()), lens_of_bytes(items.last())->0)
    }
}

/// The focusing power of one box: each lens weighs the box number plus one,
/// times its slot number plus one, times its power (a removal-shaped lens
/// without power weighs nothing).
pub open spec fn box_score(bx: Seq<(Seq<u8>, Option<int>)>, b: int) -> int
    decreases bx.len(),
{
    if bx.len() == 0 {
        0
    } else {
        box_score(bx.drop_last(), b) + (b + 1) * (bx.len() as int) * (match bx.last().1 {
            Option::Some(p) => p,
            Option::None => 0,
        })
    }
}

/// The focusing power of all boxes together.
pub open spec fn boxes_score(boxes: Seq<Seq<(Seq<u8>, Option<int>)>>) -> int
    decreases boxes.len(),
{
    if boxes.len() == 0 {
        0
    } else {
        boxes_score(boxes.drop_last()) + box_score(boxes.last(), boxes.len() - 1)
    }
}

/// The byte sequences of a list of instruction strings.
pub open spec fn item_views(rows: Seq<String>) -> Seq<Seq<u8>> {
    rows.map_values(|s: String| crate::text::byte_view(s@))
}

/// The total focusing power that a list of instructions produces.
pub open spec fn focusing_power(items: Seq<Seq<u8>>) -> int {
    boxes_score(boxes_after(items))
}

/// The plain pairs of a vector of lenses.
pub open spec fn box_view(bx: Seq<Lens>) -> Seq<(Seq<u8>, Option<int>)> {
    bx.map_values(|l: Lens| l.view_pair())
}

/// The plain contents of a vector of boxes.
pub open spec fn boxes_view(boxes: Seq<Vec<Lens>>) -> Seq<Seq<(Seq<u8>, Option<int>)>> {
    boxes.map_values(|bx: Vec<Lens>| box_view(bx@))
}

/// True when `v` holds exactly the bytes of `w`.
fn bytes_equal(v: &Vec<u8>, w: &Vec<u8>) -> (r: bool)
    ensures
        r == (v@ == w@),
{
    let n: usize = v.len();
    if n != w.len() {
        return false;
    }
    let mut i: usize = 0;
    while i < n
        invariant
            n == v@.len(),
            n == w@.len(),
            i <= n,
            forall|j: int| 0 <= j < i ==> v@[j] == w@[j],
        decreases n - i,
    {
        if v[i] != w[i] {
            return false;
        }
        i = i + 1;
    }
    proof {
        assert(v@ =~= w@);
    }
    true
}

/// Below `k`, no lens of `bv` carries the label; at `k`, one does: then the
/// label's index is exactly `k`.
proof fn lemma_label_index_window(bv: Seq<(Seq<u8>, Option<int>)>, label: Seq<u8>, k: int)
    requires
        0 <= k < bv.len(),
        bv[k].0 == label,
        forall|j: int| 0 <= j < k ==> (#[trigger] bv[j]).0 != label,
    ensures
        label_index(bv, label) == k,
    decreases k,
{
    if k > 0 {
        lemma_label_index_window(bv.drop_first(), label, k - 1);
    }
}

/// Where no lens carries the label, the label has no index.
proof fn lemma_label_index_absent(bv: Seq<(Seq<u8>, Option<int>)>, label: Seq<u8>)
    requires
        forall|j: int| 0 <= j < bv.len() ==> (#[trigger] bv[j]).0 != label,
    ensures
        label_index(bv, label) == -1,
    decreases bv.len(),
{
    if bv.len() > 0 {
        lemma_label_index_absent(bv.drop_first(), label);
    }
}

/// The slot of the lens carrying `label`, if the box holds one.
fn find_label(bx: &Vec<Lens>, label: &Vec<u8>) -> (r: Option<usize>)
    ensures
        r is Some ==> r->0 < bx@.len() && label_index(box_view(bx@), label@) == r->0,
        r is None ==> label_index(box_view(bx@), label@) == -1,
{
    let n: usize = bx.len();
    let mut i: usize = 0;
    while i < n
        invariant
            n == bx@.len(),
            i <= n,
            forall|j: int| 0 <= j < i ==> (#[trigger] box_view(bx@)[j]).0 != label@,
        decreases n - i,
    {
        if bytes_equal(&bx[i].label, label) {
            proof {
                lemma_label_index_window(box_view(bx@), label@, i as int);
            }
            return Some(i);
        }
        i = i + 1;
    }
    proof {
        lemma_label_index_absent(box_view(bx@), label@);
    }
    None
}

/// Reads one instruction item as a lens.
fn parse_lens(item: &Vec<u8>) -> (r: Option<Lens>)
    ensures
        r is Some <==> lens_of_bytes(item@) is Some,
        r is Some ==> r->0.view_pair() == lens_of_bytes(item@)->0,
{
    proof {
        assert(item@.skip(0) =~= item@);
        vstd::std_specs::vec::axiom_spec_len(item);
    }
    match text::find_first(item, 0, 61) {
        Option::Some(ei) => {
            let label = text::copy_range(item, 0, ei);
            let pseg = text::copy_range(item, ei + 1, item.len());
            proof {
                assert(label@ =~= item@.take(ei as int));
                assert(pseg@ =~= item@.skip(ei + 1));
            }
            let power = text::parse_usize(pseg.as_slice());
            Some(Lens { label, power })
        },
        Option::None => {
            match text::find_first(item, 0, 45) {
                Option::Some(di) => {
                    let label = text::copy_range(item, 0, di);
                    proof {
                        assert(label@ =~= item@.take(di as int));
                    }
                    Some(Lens { label, power: None })
                },
                Option::None => None,
            }
        },
    }
}

proof fn lemma_box_score_nonneg(bx: Seq<(Seq<u8>, Option<int>)>, b: int)
    requires
        b >= 0,
        forall|l: int| 0 <= l < bx.len() ==> (#[trigger] bx[l]).1 is Some ==> bx[l].1->0 >= 0,
    ensures
        box_score(bx, b) >= 0,
    decreases bx.len(),
{
    if bx.len() > 0 {
        lemma_box_score_nonneg(bx.drop_last(), b);
    }
}

proof fn lemma_box_score_prefix(bx: Seq<(Seq<u8>, Option<int>)>, b: int, l: int)
    requires
        b >= 0,
        0 <= l <= bx.len(),
        forall|t: int| 0 <= t < bx.len() ==> (#[trigger] bx[t]).1 is Some ==> bx[t].1->0 >= 0,
    ensures
        box_score(bx.take(l), b) <= box_score(bx, b),
    decreases bx.len() - l,
{
    if l < bx.len() {
        lemma_box_score_prefix(bx, b, l + 1);
        assert(bx.take(l + 1).drop_last() =~= bx.take(l));
        assert(bx.take(l + 1).last() == bx[l]);
        assert(forall|t: int|
            0 <= t < bx.take(l).len() ==> (#[trigger] bx.take(l)[t]).1 is Some
                ==> bx.take(l)[t].1->0 >= 0);
        lemma_box_score_nonneg(bx.take(l), b);
        if bx[l].1 is Some {
            assert((b + 1) * (l + 1) * bx[l].1->0 >= 0) by (nonlinear_arith)
                requires b >= 0 && l >= 0 && bx[l].1->0 >= 0;
        }
    } else {
        assert(bx.take(l) =~= bx);
    }
}

proof fn lemma_boxes_score_prefix(bv: Seq<Seq<(Seq<u8>, Option<int>)>>, b: int)
    requires
        0 <= b <= bv.len(),
        forall|i: int, l: int|
            0 <= i < bv.len() && 0 <= l < bv[i].len() ==> (#[trigger] bv[i][l]).1 is Some
                ==> bv[i][l].1->0 >= 0,
    ensures
        boxes_score(bv.take(b)) <= boxes_score(bv),
    decreases bv.len() - b,
{
    if b < bv.len() {
        lemma_boxes_score_prefix(bv, b + 1);
        assert(bv.take(b + 1).drop_last() =~= bv.take(b));
        assert(bv.take(b + 1).last() == bv[b]);
        assert(forall|l: int|
            0 <= l < bv[b].len() ==> (#[trigger] bv[b][l]).1 is Some ==> bv[b][l].1->0 >= 0);
        lemma_box_score_nonneg(bv[b], b);
    } else {
        assert(bv.take(b) =~= bv);
    }
}

/// The sum of the hashes of all instructions.
pub fn one(instructions: &Vec<String>) -> (r: usize)
    requires
        instructions@.len() * 256 <= usize::MAX,
    ensures
        r == hash_sum(instructions@),
{
    let n: usize = instructions.len();
    let mut acc: usize = 0;
    let mut i: usize = 0;
    while i < n
        invariant
            n == instructions@.len(),
            n * 256 <= usize::MAX,
            i <= n,
            acc <= i * 256,
            acc == hash_sum(instructions@.take(i as int)),
        decreases n - i,
    {
        proof {
            assert(instructions@.take(i + 1).drop_last() =~= instructions@.take(i as int));
            assert(instructions@.take(i + 1).last() == instructions@[i as int]);
            assert((i + 1) * 256 == i * 256 + 256) by (nonlinear_arith);
            assert(i * 256 <= n * 256) by (nonlinear_arith)
                requires 0 <= i && i + 1 <= n;
        }
        let h: usize = hash(instructions[i].as_str());
        acc = acc + h;
        i = i + 1;
    }
    proof {
        assert(instructions@.take(n as int) =~= instructions@);
    }
    acc
}

/// The largest focal power `two` accepts in one instruction.
pub const POWER_BOUND: usize = 1000000;

/// The largest number of instructions `two` accepts.
pub const ITEM_BOUND: usize = 100000;

/// The total focusing power after all instructions are applied to the 256
/// boxes: every instruction must be a well-formed lens item, and the total
/// must fit the machine word.
pub fn two(instructions: &Vec<String>) -> (r: usize)
    requires
        instructions@.len() <= ITEM_BOUND,
        forall|k: int|
            0 <= k < instructions@.len() ==> vstd::utf8::is_ascii_chars(
                #[trigger] instructions@[k]@,
            ),
        forall|k: int|
            0 <= k < instructions@.len() ==> lens_of_bytes(
                #[trigger] item_views(instructions@)[k],
            ) is Some,
        forall|k: int|
            0 <= k < instructions@.len() ==> ({
                let lp = lens_of_bytes(#[trigger] item_views(instructions@)[k])->0;
                lp.1 is Some ==> lp.1->0 <= POWER_BOUND
            }),
        focusing_power(item_views(instructions@)) <= usize::MAX as int,
    ensures
        r == focusing_power(item_views(instructions@)),
{
    let ghost items = item_views(instructions@);
    let mut boxes: Vec<Vec<Lens>> = Vec::new();
    let mut setup: usize = 0;
    while setup < 256
        invariant
            setup <= 256,
            boxes@.len() == setup,
            forall|b: int| 0 <= b < setup ==> (#[trigger] boxes@[b])@.len() == 0,
        decreases 256 - setup,
    {
        boxes.push(Vec::new());
        setup = setup + 1;
    }
    proof {
        assert(items.take(0) =~= Seq::<Seq<u8>>::empty());
        assert(boxes_view(boxes@) =~~= boxes_after(items.take(0)));
    }
    let n: usize = instructions.len();
    let mut k: usize = 0;
    while k < n
        invariant
            n == instructions@.len(),
            n <= ITEM_BOUND,
            k <= n,
            items == item_views(instructions@),
            forall|t: int|
                0 <= t < n ==> vstd::utf8::is_ascii_chars(#[trigger] instructions@[t]@),
            forall|t: int| 0 <= t < n ==> lens_of_bytes(#[trigger] items[t]) is Some,
            forall|t: int|
                0 <= t < n ==> ({
                    let lp = lens_of_bytes(#[trigger] items[t])->0;
                    lp.1 is Some ==> lp.1->0 <= POWER_BOUND
                }),
            boxes@.len() == 256,
            boxes_view(boxes@) == boxes_after(items.take(k as int)),
            forall|b: int| 0 <= b < 256 ==> (#[trigger] boxes@[b])@.len() <= k,
            forall|b: int, l: int|
                0 <= b < 256 && 0 <= l < boxes@[b]@.len() ==> (match (
                #[trigger] boxes@[b]@[l]).power {
                    Option::Some(p) => p <= POWER_BOUND,
                    Option::None => true,
                }),
        decreases n - k,
    {
        let ghost bv0 = boxes_view(boxes@);
        proof {
            assert(items.take(k + 1).drop_last() =~= items.take(k as int));
            assert(items.take(k + 1).last() == items[k as int]);
        }
        let bytes: Vec<u8> = match text::ascii_bytes(instructions[k].as_str()) {
            Option::Some(b) => b,
            Option::None => {
                proof {
                    assert(false);
                }
                return 0;
            },
        };
        proof {
            assert(bytes@ == items[k as int]);
        }
        let lens: Lens = match parse_lens(&bytes) {
            Option::Some(l) => l,
            Option::None => {
                proof {
                    assert(false);
                }
                return 0;
            },
        };
        let ghost lp = lens.view_pair();
        let b_id: usize = hash_bytes(lens.label.as_slice());
        proof {
            assert(b_id as int == hash_spec(lp.0));
            assert(box_view(boxes@[b_id as int]@) == bv0[b_id as int]);
        }
        let pos = find_label(&boxes[b_id], &lens.label);
        let has_power: bool = lens.power.is_some();
        let mut bx: Vec<Lens> = boxes.remove(b_id);
        let ghost bx0 = bx@;
        match pos {
            Option::Some(i) => {
                if has_power {
                    bx.set(i, lens);
                    proof {
                        assert(box_view(bx@) =~= box_view(bx0).update(i as int, lp));
                    }
                } else {
                    bx.remove(i);
                    proof {
                        assert(box_view(bx@) =~= box_view(bx0).remove(i as int));
                    }
                }
            },
            Option::None => {
                if has_power {
                    bx.push(lens);
                    proof {
                        assert(box_view(bx@) =~= box_view(bx0).push(lp));
                    }
                }
            },
        }
        boxes.insert(b_id, bx);
        proof {
            assert(boxes_view(boxes@) =~= bv0.update(b_id as int, box_view(bx@)));
            assert(boxes_view(boxes@) =~= apply_lens(bv0, lp));
            assert(lens_of_bytes(items[k as int])->0 == lp);
            assert(boxes_view(boxes@) == boxes_after(items.take(k + 1)));
        }
        k = k + 1;
    }
    proof {
        assert(items.take(n as int) =~= items);
    }
    let ghost bv = boxes_view(boxes@);
    proof {
        assert(forall|i: int, l: int|
            0 <= i < bv.len() && 0 <= l < bv[i].len() ==> (#[trigger] bv[i][l]).1 is Some
                ==> 0 <= bv[i][l].1->0 <= POWER_BOUND);
        assert(boxes_score(bv) <= usize::MAX as int);
    }
    let mut total: u64 = 0;
    let mut b: usize = 0;
    while b < 256
        invariant
            boxes@.len() == 256,
            bv == boxes_view(boxes@),
            bv.len() == 256,
            b <= 256,
            boxes_score(bv) <= usize::MAX as int,
            forall|i: int| 0 <= i < 256 ==> (#[trigger] boxes@[i])@.len() <= ITEM_BOUND,
            forall|i: int, l: int|
                0 <= i < bv.len() && 0 <= l < bv[i].len() ==> (#[trigger] bv[i][l]).1 is Some
                    ==> 0 <= bv[i][l].1->0 <= POWER_BOUND,
            total == boxes_score(bv.take(b as int)),
        decreases 256 - b,
    {
        proof {
            assert(bv.take(b + 1).drop_last() =~= bv.take(b as int));
            assert(bv.take(b + 1).last() == bv[b as int]);
            lemma_boxes_score_prefix(bv, b + 1);
            lemma_boxes_score_prefix(bv, b as int);
        }
        let len: usize = boxes[b].len();
        let mut l: usize = 0;
        while l < len
            invariant
                boxes@.len() == 256,
                bv == boxes_view(boxes@),
                bv.len() == 256,
                b < 256,
                len == boxes@[b as int]@.len(),
                len <= ITEM_BOUND,
                l <= len,
                boxes_score(bv) <= usize::MAX as int,
                boxes_score(bv.take(b + 1)) == boxes_score(bv.take(b as int)) + box_score(
                    bv[b as int],
                    b as int,
                ),
                boxes_score(bv.take(b + 1)) <= boxes_score(bv),
                forall|i: int, t: int|
                    0 <= i < bv.len() && 0 <= t < bv[i].len() ==> (#[trigger] bv[i][t]).1 is Some
                        ==> 0 <= bv[i][t].1->0 <= POWER_BOUND,
                total == boxes_score(bv.take(b as int)) + box_score(
                    bv[b as int].take(l as int),
                    b as int,
                ),
            decreases len - l,
        {
            let ghost the_box = bv[b as int];
            proof {
                assert(the_box.take(l + 1).drop_last() =~= the_box.take(l as int));
                assert(the_box.take(l + 1).last() == the_box[l as int]);
                assert(forall|t: int|
                    0 <= t < the_box.len() ==> (#[trigger] the_box[t]).1 is Some
                        ==> the_box[t].1->0 >= 0);
                lemma_box_score_prefix(the_box, b as int, l + 1);
                lemma_boxes_score_prefix(bv, b as int);
                assert(the_box[l as int] == boxes@[b as int]@[l as int].view_pair());
            }
            let term: u64 = match boxes[b][l].power {
                Option::Some(p) => {
                    proof {
                        assert((b + 1) * (l + 1) <= 256 * (ITEM_BOUND as int)) by (nonlinear_arith)
                            requires
                                0 <= b < 256,
                                0 <= l < ITEM_BOUND;
                        assert((b + 1) * (l + 1) * (p as int) <= 256 * (ITEM_BOUND as int) * (
                        POWER_BOUND as int)) by (nonlinear_arith)
                            requires
                                0 <= b < 256,
                                0 <= l < ITEM_BOUND,
                                0 <= p <= POWER_BOUND;
                        assert((b + 1) * (l + 1) * (p as int) >= 0) by (nonlinear_arith)
                            requires b >= 0 && l >= 0 && p >= 0;
                    }
                    ((b as u64) + 1) * ((l as u64) + 1) * (p as u64)
                },
                Option::None => 0,
            };
            total = total + term;
            l = l + 1;
        }
        proof {
            assert(bv[b as int].take(len as int) =~= bv[b as int]);
        }
        b = b + 1;
    }
    proof {
        assert(bv.take(256) =~= bv);
    }
    total as usize
}

} // verus!
