//! Small number-theory and combinatorial helpers shared by the puzzles.

use vstd::prelude::*;

verus! {

/// True when `d` divides `n` exactly.
pub open spec fn divides(d: int, n: int) -> bool {
    exists|k: int| n == #[trigger] (d * k)
}

/// Euclid's algorithm as a mathematical function.
pub open spec fn gcd_spec(a: int, b: int) -> int
    decreases b,
{
    if b <= 0 {
        a
    } else {
        gcd_spec(b, a % b)
    }
}

proof fn lemma_divides_add(d: int, x: int, y: int)
    requires
        divides(d, x),
        divides(d, y),
    ensures
        divides(d, x + y),
{
    let kx = choose|k: int| x == #[trigger] (d * k);
    let ky = choose|k: int| y == #[trigger] (d * k);
    assert(x + y == d * (kx + ky)) by (nonlinear_arith)
        requires x == d * kx && y == d * ky;
}

proof fn lemma_divides_scale(d: int, c: int, x: int)
    requires
        divides(d, x),
    ensures
        divides(d, c * x),
{
    let k = choose|k: int| x == #[trigger] (d * k);
    assert(c * x == d * (c * k)) by (nonlinear_arith)
        requires x == d * k;
}

/// The greatest common divisor by Euclid's algorithm: the result divides
/// both arguments, and every common divisor divides the result.
pub fn euclidic_gcd(a: usize, b: usize) -> (r: usize)
    ensures
        r == gcd_spec(a as int, b as int),
        divides(r as int, a as int),
        divides(r as int, b as int),
        forall|d: int| divides(d, a as int) && divides(d, b as int) ==> #[trigger] divides(
            d,
            r as int,
        ),
        a > 0 || b > 0 ==> r > 0,
    decreases b,
{
    if b == 0 {
        proof {
            assert(a as int == (a as int) * 1);
            assert(0int == (a as int) * 0);
            assert forall|d: int|
                divides(d, a as int) && divides(d, b as int) implies #[trigger] divides(
                d,
                a as int,
            ) by {}
        }
        a
    } else {
        let m: usize = a % b;
        let r = euclidic_gcd(b, m);
        proof {
            vstd::arithmetic::div_mod::lemma_fundamental_div_mod(a as int, b as int);
            // r divides b and a % b, so it divides a = (a / b) * b + a % b
            lemma_divides_scale(r as int, a as int / b as int, b as int);
            lemma_divides_add(r as int, (a as int / b as int) * (b as int), m as int);
            // a common divisor d of a and b also divides a % b = a - (a / b) * b
            assert forall|d: int|
                divides(d, a as int) && divides(d, b as int) implies #[trigger] divides(
                d,
                r as int,
            ) by {
                let q = a as int / b as int;
                lemma_divides_scale(d, -q, b as int);
                lemma_divides_add(d, a as int, (-q) * (b as int));
                assert((-q) * (b as int) == -((b as int) * q)) by (nonlinear_arith);
                assert(m as int == a as int + (-q) * (b as int));
            }
        }
        r
    }
}

/// The least common multiple as `a * b / gcd(a, b)`: the exact quotient,
/// and a common multiple of both arguments.
pub fn euclidic_lcm(a: usize, b: usize) -> (r: usize)
    requires
        a >= 1,
        b >= 1,
        a * b <= usize::MAX,
    ensures
        r == (a as int) * (b as int) / gcd_spec(a as int, b as int),
        divides(a as int, r as int),
        divides(b as int, r as int),
{
    let g: usize = euclidic_gcd(a, b);
    let r: usize = a * b / g;
    proof {
        let ai = a as int;
        let bi = b as int;
        let gi = g as int;
        let ka = choose|k: int| ai == #[trigger] (gi * k);
        let kb = choose|k: int| bi == #[trigger] (gi * k);
        assert(ai * bi == gi * (ka * bi) && ka * bi == bi * ka) by (nonlinear_arith)
            requires ai == gi * ka;
        assert(ai * bi == gi * (ai * kb) && ai * kb == ai * kb) by (nonlinear_arith)
            requires bi == gi * kb;
        vstd::arithmetic::div_mod::lemma_fundamental_div_mod_converse(
            ai * bi, gi, ka * bi, 0);
        assert(r as int == ka * bi);
        assert(r as int == bi * ka);
        vstd::arithmetic::div_mod::lemma_fundamental_div_mod_converse(
            ai * bi, gi, ai * kb, 0);
        assert(r as int == ai * kb);
    }
    r
}

/// The ordered pairs that can be drawn from `s` with the first element
/// earlier than the second, listed with first indices ascending and, inside
/// one first index, second indices ascending.
pub open spec fn index_pairs<T>(s: Seq<T>, i: int) -> Seq<Seq<T>>
    decreases s.len() - i,
{
    if i < 0 || i + 1 >= s.len() {
        Seq::empty()
    } else {
        Seq::new((s.len() - i - 1) as nat, |t: int| seq![s[i], s[i + 1 + t]]) + index_pairs(
            s,
            i + 1,
        )
    }
}

/// The views of the rows of a vector of vectors.
pub open spec fn row_views<T>(r: Seq<Vec<T>>) -> Seq<Seq<T>> {
    r.map_values(|v: Vec<T>| v@)
}

/// Every two-element selection of `list`, in order of the first element's
/// index and then the second's.
pub fn unique_permutations<T: Copy>(list: &[T]) -> (r: Vec<Vec<T>>)
    ensures
        row_views(r@) == index_pairs(list@, 0),
{
    let mut r: Vec<Vec<T>> = Vec::new();
    let len: usize = list.len();
    if len == 0 {
        proof {
            assert(row_views(r@) =~= index_pairs(list@, 0));
        }
        return r;
    }
    let mut i: usize = 0;
    while i < len - 1
        invariant
            len == list@.len(),
            len >= 1,
            i <= len - 1,
            row_views(r@) + index_pairs(list@, i as int) =~= index_pairs(list@, 0),
        decreases len - i,
    {
        let mut j: usize = i + 1;
        while j < len
            invariant
                len == list@.len(),
                i < len,
                i + 1 <= j <= len,
                row_views(r@) + Seq::new(
                    (len - j) as nat,
                    |t: int| seq![list@[i as int], list@[j + t]],
                ) + index_pairs(list@, i + 1) =~= index_pairs(list@, 0),
            decreases len - j,
        {
            let pair: Vec<T> = vec![list[i], list[j]];
            let ghost before = r@;
            r.push(pair);
            proof {
                assert(row_views(r@) =~= row_views(before) + seq![pair@]);
                let tail_now = Seq::new(
                    (len - j) as nat,
                    |t: int| seq![list@[i as int], list@[j + t]],
                );
                let tail_next = Seq::new(
                    (len - (j + 1)) as nat,
                    |t: int| seq![list@[i as int], list@[j + 1 + t]],
                );
                assert(tail_now =~= seq![pair@] + tail_next);
                assert(row_views(r@) + tail_next =~= row_views(before) + tail_now);
            }
            j = j + 1;
        }
        proof {
            assert(Seq::new(
                (len - (i + 1) - 1 + 1) as nat,
                |t: int| seq![list@[i as int], list@[i + 1 + t]],
            ) =~= Seq::new((len - i - 1) as nat, |t: int| seq![list@[i as int], list@[i + 1 + t]]));
        }
        i = i + 1;
    }
    proof {
        assert(index_pairs(list@, len - 1) =~= Seq::<Seq<T>>::empty());
        assert(row_views(r@) =~= index_pairs(list@, 0));
    }
    r
}

} // verus!
