//! The soft-body descriptor handed to the debug renderer, as JSON text:
//! `{"nodeCount":N,"color":[r,g,b],"beams":[a0,b0,a1,b1,...]}` where the beam
//! list holds every beam's endpoints as global node numbers.

use vstd::prelude::*;
use vstd::string::StringExecFns;
use crate::lines::beam_total;
use crate::structure::{Beams, index_pairs_spec, lemma_index_pairs_entries};

verus! {

/// The ASCII digit for `d` (0..9).
pub open spec fn digit_char(d: int) -> char {
    ((d + 48) as u8) as char
}

/// Decimal representation of `n`, most significant digit first, no leading
/// zeros.
pub open spec fn decimal(n: nat) -> Seq<char>
    decreases n,
{
    if n < 10 {
        seq![digit_char(n as int)]
    } else {
        decimal(n / 10).push(digit_char((n % 10) as int))
    }
}

/// A decimal digit character, '0' to '9'.
pub open spec fn is_digit(c: char) -> bool {
    '0' <= c && c <= '9'
}

/// The number a string of decimal digits spells, most significant digit first.
pub open spec fn digits_value(s: Seq<char>) -> int
    decreases s.len(),
{
    if s.len() == 0 {
        0
    } else {
        digits_value(s.drop_last()) * 10 + (s.last() as int - '0' as int)
    }
}

/// `decimal(n)` is the base-10 text of `n`: a non-empty string of digits
/// that spells `n`, with no leading zero unless `n` is 0 (whose text is "0").
pub proof fn lemma_decimal_is_base10(n: nat)
    ensures
        decimal(n).len() >= 1,
        forall|i: int| 0 <= i < decimal(n).len() ==> is_digit(#[trigger] decimal(n)[i]),
        digits_value(decimal(n)) == n,
        decimal(n)[0] == '0' ==> n == 0,
        n == 0 ==> decimal(n) == seq!['0'],
    decreases n,
{
    if n < 10 {
        let c = digit_char(n as int);
        assert(c as int == n + 48);
        assert(decimal(n) == seq![c]);
        assert(seq![c].drop_last() == Seq::<char>::empty());
        assert('0' as int == 48);
        assert(digits_value(seq![c]) == digits_value(Seq::<char>::empty()) * 10 + (c as int - '0' as int));
    } else {
        lemma_decimal_is_base10(n / 10);
        let c = digit_char((n % 10) as int);
        assert(c as int == n % 10 + 48);
        let p = decimal(n / 10);
        assert(decimal(n) == p.push(c));
        assert(p.push(c).drop_last() == p);
        assert(decimal(n)[0] == p[0]);
        assert(n == (n / 10) * 10 + n % 10);
        assert('0' as int == 48);
        assert(digits_value(p.push(c)) == digits_value(p) * 10 + (c as int - '0' as int));
    }
}

/// Appending a digit: the text of `10 n + d` is the text of `n` followed by
/// the digit `d`, for `n >= 1`.
pub proof fn lemma_decimal_append_digit(n: nat, d: nat)
    requires
        n >= 1,
        d < 10,
    ensures
        decimal(n * 10 + d) == decimal(n).push(digit_char(d as int)),
{
    assert((n * 10 + d) / 10 == n);
    assert((n * 10 + d) % 10 == d);
}

/// The numbers of `v`, in decimal, separated by commas.
pub open spec fn comma_list(v: Seq<u32>) -> Seq<char>
    decreases v.len(),
{
    if v.len() == 0 {
        seq![]
    } else if v.len() == 1 {
        decimal(v[0] as nat)
    } else {
        comma_list(v.drop_last()).push(',') + decimal(v.last() as nat)
    }
}

/// Append one character: calls `String::push`, whose documented effect is
/// that the string afterwards holds its old characters followed by `c`; the
/// contract claims exactly that.
#[verifier::external_body]
fn push_char(s: &mut String, c: char)
    ensures
        final(s)@ == old(s)@.push(c),
{
    s.push(c);
}

/// Append the decimal representation of `n`.
pub fn push_decimal(s: &mut String, n: u64)
    ensures
        final(s)@ == old(s)@ + decimal(n as nat),
    decreases n,
{
    if n >= 10 {
        push_decimal(s, n / 10);
    }
    let d = (n % 10) as u8;
    push_char(s, (d + 48) as char);
    proof {
        if n >= 10 {
            assert(old(s)@ + decimal(n as nat) =~= old(s)@ + decimal((n / 10) as nat) + seq![digit_char((n % 10) as int)]);
        }
    }
}

/// The endpoint list of one car's beams as global node numbers: its flat
/// `[a0, b0, a1, b1, ...]` list, each shifted by the car's node offset.
pub open spec fn shifted_pairs(a: Seq<u32>, b: Seq<u32>, off: int) -> Seq<u32> {
    index_pairs_spec(a, b).map_values(|v: u32| (v + off) as u32)
}

/// The endpoint lists of cars `0 .. c`, car by car.
pub open spec fn global_pairs<S>(cars: Seq<&Beams<S>>, offsets: Seq<usize>, c: int) -> Seq<u32>
    decreases c,
{
    if c <= 0 {
        seq![]
    } else {
        global_pairs(cars, offsets, c - 1) + shifted_pairs(cars[c - 1].a@, cars[c - 1].b@, offsets[c - 1] as int)
    }
}

/// The descriptor text for `total_nodes` nodes and the beam endpoint list `beams`.
pub open spec fn soft_descriptor_spec(total_nodes: nat, beams: Seq<u32>) -> Seq<char> {
    "{\"nodeCount\":"@ + decimal(total_nodes) + ",\"color\":[0.85,0.75,0.25],\"beams\":["@
        + comma_list(beams) + "]}"@
}

/// The descriptor's beam list holds both endpoints of every beam, broken or
/// not: twice as many entries as there are beams, which is the room the line
/// buffer has.
pub proof fn lemma_global_pairs_len<S: Copy>(cars: Seq<&Beams<S>>, offsets: Seq<usize>, c: int)
    requires
        0 <= c <= cars.len(),
        forall|k: int| 0 <= k < cars.len() ==> (#[trigger] cars[k]).wf(),
    ensures
        global_pairs(cars, offsets, c).len() == 2 * beam_total(cars, c),
    decreases c,
{
    if c > 0 {
        lemma_global_pairs_len(cars, offsets, c - 1);
        let car = cars[c - 1];
        assert(car.wf());
        lemma_index_pairs_entries(car.a@, car.b@);
    }
}

proof fn lemma_comma_list_push(v: Seq<u32>, x: u32)
    ensures
        comma_list(v.push(x)) == if v.len() == 0 {
            decimal(x as nat)
        } else {
            comma_list(v).push(',') + decimal(x as nat)
        },
{
    assert(v.push(x).drop_last() == v);
    if v.len() == 0 {
        assert(v.push(x).len() == 1);
        assert(v.push(x)[0] == x);
    }
}

/// The soft-body descriptor of the cars `cars` (node offsets `offsets`):
/// the total node count, the colour of the debug lines, and every beam's
/// endpoints as global node numbers, car by car.
pub fn soft_descriptor_json<S: Copy>(total_nodes: usize, cars: &Vec<&Beams<S>>, offsets: &Vec<usize>) -> (s: String)
    requires
        offsets.len() == cars.len(),
        forall|c: int| 0 <= c < cars.len() ==> (#[trigger] cars@[c]).wf(),
        forall|c: int, i: int|
            0 <= c < cars.len() && 0 <= i < cars@[c].a.len() ==> #[trigger] cars@[c].a@[i] + offsets@[c]
                <= u32::MAX && cars@[c].b@[i] + offsets@[c] <= u32::MAX,
    ensures
        s@ == soft_descriptor_spec(total_nodes as nat, global_pairs(cars@, offsets@, cars.len() as int)),
{
    let mut s = String::new();
    s.append("{\"nodeCount\":");
    push_decimal(&mut s, total_nodes as u64);
    s.append(",\"color\":[0.85,0.75,0.25],\"beams\":[");
    let ghost head = s@;
    let n = cars.len();
    let mut first = true;
    let mut c: usize = 0;
    while c < n
        invariant
            n == cars.len(),
            offsets.len() == n,
            forall|c: int| 0 <= c < cars.len() ==> (#[trigger] cars@[c]).wf(),
            forall|c: int, i: int|
                0 <= c < cars.len() && 0 <= i < cars@[c].a.len() ==> #[trigger] cars@[c].a@[i] + offsets@[c]
                    <= u32::MAX && cars@[c].b@[i] + offsets@[c] <= u32::MAX,
            c <= n,
            s@ == head + comma_list(global_pairs(cars@, offsets@, c as int)),
            first == (global_pairs(cars@, offsets@, c as int).len() == 0),
        decreases n - c,
    {
        let car = cars[c];
        let off = offsets[c];
        let m = car.a.len();
        let ghost done = global_pairs(cars@, offsets@, c as int);
        proof {
            assert(car.wf());
        }
        let mut i: usize = 0;
        while i < m
            invariant
                car == cars@[c as int],
                car.wf(),
                m == car.a.len(),
                off == offsets@[c as int],
                forall|i: int| 0 <= i < m ==> car.a@[i] + off <= u32::MAX && car.b@[i] + off <= u32::MAX,
                i <= m,
                s@ == head + comma_list(done + shifted_pairs(car.a@.take(i as int), car.b@.take(i as int), off as int)),
                first == ((done + shifted_pairs(car.a@.take(i as int), car.b@.take(i as int), off as int)).len() == 0),
            decreases m - i,
        {
            let ghost before = done + shifted_pairs(car.a@.take(i as int), car.b@.take(i as int), off as int);
            let x = (car.a[i] as usize + off) as u32;
            let y = (car.b[i] as usize + off) as u32;
            proof {
                assert(car.a@[i as int] + off <= u32::MAX && car.b@[i as int] + off <= u32::MAX);
                assert(car.a@.take(i + 1).drop_last() == car.a@.take(i as int));
                assert(car.b@.take(i + 1).drop_last() == car.b@.take(i as int));
                assert(car.a@.take(i + 1).last() == car.a@[i as int]);
                assert(car.b@.take(i + 1).last() == car.b@[i as int]);
                assert(index_pairs_spec(car.a@.take(i + 1), car.b@.take(i + 1)) == index_pairs_spec(
                    car.a@.take(i as int),
                    car.b@.take(i as int),
                ).push(car.a@[i as int]).push(car.b@[i as int]));
                assert(shifted_pairs(car.a@.take(i + 1), car.b@.take(i + 1), off as int) =~= shifted_pairs(
                    car.a@.take(i as int),
                    car.b@.take(i as int),
                    off as int,
                ).push(x).push(y));
                assert(done + shifted_pairs(car.a@.take(i + 1), car.b@.take(i + 1), off as int) =~= before.push(x).push(y));
                lemma_comma_list_push(before, x);
                lemma_comma_list_push(before.push(x), y);
            }
            if !first {
                push_char(&mut s, ',');
            }
            first = false;
            push_decimal(&mut s, x as u64);
            push_char(&mut s, ',');
            push_decimal(&mut s, y as u64);
            proof {
                assert(s@ =~= head + comma_list(before.push(x).push(y)));
            }
            i = i + 1;
        }
        proof {
            assert(car.a@.take(m as int) == car.a@);
            assert(car.b@.take(m as int) == car.b@);
        }
        c = c + 1;
    }
    s.append("]}");
    proof {
        assert(s@ =~= soft_descriptor_spec(total_nodes as nat, global_pairs(cars@, offsets@, n as int)));
    }
    s
}

/// Occurrences of `ch` in `s`.
pub open spec fn count_char(s: Seq<char>, ch: char) -> nat
    decreases s.len(),
{
    if s.len() == 0 {
        0
    } else {
        count_char(s.drop_last(), ch) + if s.last() == ch { 1nat } else { 0nat }
    }
}

proof fn lemma_count_char_concat(x: Seq<char>, y: Seq<char>, ch: char)
    ensures
        count_char(x + y, ch) == count_char(x, ch) + count_char(y, ch),
    decreases y.len(),
{
    if y.len() == 0 {
        assert(x + y == x);
    } else {
        lemma_count_char_concat(x, y.drop_last(), ch);
        assert((x + y).drop_last() == x + y.drop_last());
    }
}

proof fn lemma_digits_no_char(s: Seq<char>, ch: char)
    requires
        !is_digit(ch),
        forall|i: int| 0 <= i < s.len() ==> is_digit(#[trigger] s[i]),
    ensures
        count_char(s, ch) == 0,
    decreases s.len(),
{
    if s.len() > 0 {
        lemma_digits_no_char(s.drop_last(), ch);
        assert(is_digit(s[s.len() - 1]));
    }
}

/// The comma list of `v` is made of digits and commas only, with exactly one
/// comma between consecutive numbers: `v.len() - 1` commas for a non-empty
/// `v`, and it is empty for an empty `v`.
pub proof fn lemma_comma_list_shape(v: Seq<u32>)
    ensures
        forall|i: int| 0 <= i < comma_list(v).len() ==> #[trigger] comma_list(v)[i] == ',' || is_digit(comma_list(v)[i]),
        v.len() > 0 ==> count_char(comma_list(v), ',') == v.len() - 1,
        v.len() == 0 ==> comma_list(v).len() == 0,
    decreases v.len(),
{
    if v.len() == 1 {
        lemma_decimal_is_base10(v[0] as nat);
        lemma_digits_no_char(decimal(v[0] as nat), ',');
    } else if v.len() > 1 {
        let p = v.drop_last();
        lemma_comma_list_shape(p);
        let x = decimal(v.last() as nat);
        lemma_decimal_is_base10(v.last() as nat);
        lemma_digits_no_char(x, ',');
        let head = comma_list(p).push(',');
        assert(comma_list(v) == head + x);
        lemma_count_char_concat(head, x, ',');
        assert(head.drop_last() == comma_list(p));
        assert forall|i: int| 0 <= i < comma_list(v).len() implies #[trigger] comma_list(v)[i] == ',' || is_digit(
            comma_list(v)[i],
        ) by {
            if i < comma_list(p).len() {
                assert(comma_list(v)[i] == comma_list(p)[i]);
            } else if i > comma_list(p).len() {
                assert(comma_list(v)[i] == x[i - head.len()]);
            }
        }
    }
}

proof fn lemma_beam_total_mono<S>(cars: Seq<&Beams<S>>, c: int, d: int)
    requires
        0 <= c <= d,
    ensures
        beam_total(cars, c) <= beam_total(cars, d),
    decreases d - c,
{
    if c < d {
        lemma_beam_total_mono(cars, c, d - 1);
    }
}

/// Every beam is in the descriptor's list as its two endpoints shifted by its
/// car's node offset: beam `i` of car `c` at entries `2 (B + i)` and
/// `2 (B + i) + 1`, where `B` counts the beams of the cars before `c`.
pub proof fn lemma_global_pairs_entries<S: Copy>(
    cars: Seq<&Beams<S>>,
    offsets: Seq<usize>,
    n: int,
    c: int,
    i: int,
)
    requires
        0 <= c < n <= cars.len(),
        forall|k: int| 0 <= k < cars.len() ==> (#[trigger] cars[k]).wf(),
        0 <= i < cars[c].a.len(),
    ensures
        global_pairs(cars, offsets, n)[2 * (beam_total(cars, c) + i)] == (cars[c].a@[i] + offsets[c]) as u32,
        global_pairs(cars, offsets, n)[2 * (beam_total(cars, c) + i) + 1] == (cars[c].b@[i] + offsets[c]) as u32,
    decreases n,
{
    let prev = global_pairs(cars, offsets, n - 1);
    lemma_global_pairs_len(cars, offsets, n - 1);
    let car = cars[n - 1];
    assert(car.wf());
    lemma_index_pairs_entries(car.a@, car.b@);
    let sh = shifted_pairs(car.a@, car.b@, offsets[n - 1] as int);
    assert(global_pairs(cars, offsets, n) == prev + sh);
    if c == n - 1 {
        let q = 2 * (beam_total(cars, c) + i);
        assert(q - prev.len() == 2 * i);
        assert(sh[2 * i] == (index_pairs_spec(car.a@, car.b@)[2 * i] + offsets[c]) as u32);
        assert(sh[2 * i + 1] == (index_pairs_spec(car.a@, car.b@)[2 * i + 1] + offsets[c]) as u32);
    } else {
        lemma_global_pairs_entries(cars, offsets, n - 1, c, i);
        lemma_beam_total_mono(cars, c + 1, n - 1);
        assert(beam_total(cars, c + 1) == beam_total(cars, c) + cars[c].a.len());
    }
}

} // verus!
