//! The grazing computation: classify the anchor, wrap the rope left and
//! right around the polygon, and add up the sectors exactly.
use crate::circle::{area_den, area_fits, area_num, share_exact, sweep_share, term_text, Circle};
use crate::rational::{
    canonical_of, fraction_checked_add, fraction_checked_div, fraction_checked_mul,
    fraction_checked_sub, lemma_add_rep, lemma_canonical_of, lemma_canonical_unique,
    lemma_equals_rep, lemma_equals_trans, lemma_lowest_le, lemma_pos_mul, lemma_sign_match,
    lemma_sub_rep, Rational, LIMIT,
};
use vstd::prelude::*;
use vstd::string::StringExecFns;

verus! {

/// Why a computation was refused.
#[derive(Debug, Clone, Copy, PartialEq, Eq, Structural)]
pub enum GrazingError {
    /// Fewer than three sides.
    InvalidPolygon,
    /// The anchor lies outside the edge, below 0 or above 1.
    InvalidPosition,
    /// An exact intermediate value outgrew 64-bit numerators or denominators.
    ArithmeticOverflow,
}

/// The angles and side length of the polygon, and where the anchor sits.
#[derive(Debug, Clone, Copy, PartialEq, Eq, Structural)]
pub struct Anchor {
    pub on_vertex: bool,
    pub outside_angle: Rational,
    pub inside_angle: Rational,
    pub initial_angle: Rational,
    pub side_length: Rational,
}

/// The anchor is at one end of the edge.
pub open spec fn on_vertex_spec(position: Rational) -> bool {
    position.num() == 0 || position.num() == position.den()
}

/// `0 <= position <= 1`.
pub open spec fn in_unit_interval(position: Rational) -> bool {
    0 <= position.num() <= position.den()
}

/// Numerator of the angle swept about the anchor itself, over `initial_angle_den`.
pub open spec fn initial_angle_num(sides: int, on_vertex: bool) -> int {
    if on_vertex {
        180 * sides + 360
    } else {
        180
    }
}

pub open spec fn initial_angle_den(sides: int, on_vertex: bool) -> int {
    if on_vertex {
        sides
    } else {
        1
    }
}

/// What `classify` computes for a polygon of `sides` sides.
pub open spec fn anchor_spec(a: Anchor, sides: int, position: Rational) -> bool {
    &&& a.on_vertex == on_vertex_spec(position)
    &&& a.outside_angle.canonical() && a.outside_angle.equals(360, sides)
    &&& a.inside_angle.wf() && a.inside_angle.equals(180 * sides - 360, sides)
    &&& a.initial_angle.wf()
    &&& a.initial_angle.equals(initial_angle_num(sides, a.on_vertex), initial_angle_den(sides, a.on_vertex))
    &&& a.side_length.canonical() && a.side_length.equals(2, sides)
}

/// Derives the polygon's angles and side length and classifies the anchor.
/// The side length is `2 / sides`.
pub fn classify(sides: u32, position: &Rational) -> (r: Result<Anchor, GrazingError>)
    requires
        position.wf(),
    ensures
        sides < 3 <==> r == Err::<Anchor, GrazingError>(GrazingError::InvalidPolygon),
        r matches Ok(a) ==> anchor_spec(a, sides as int, *position),
        r matches Err(e) ==> e == GrazingError::InvalidPolygon || e == GrazingError::ArithmeticOverflow,
        sides >= 3 && 180 * sides <= LIMIT ==> r is Ok,
{
    if sides < 3 {
        return Err(GrazingError::InvalidPolygon);
    }
    let ghost n = sides as int;
    let count = Rational::integer(sides as u64);
    let full_turn = Rational::integer(360);
    let half_turn = Rational::integer(180);
    let two = Rational::integer(2);
    let outside_angle = match fraction_checked_div(&full_turn, &count) {
        Some(x) => x,
        None => return Err(GrazingError::ArithmeticOverflow),
    };
    proof {
        lemma_lowest_le(outside_angle, 360, n);
    }
    let inside_angle = match fraction_checked_sub(&half_turn, &outside_angle) {
        Some(x) => x,
        None => return Err(GrazingError::ArithmeticOverflow),
    };
    proof {
        lemma_sub_rep(half_turn, outside_angle, inside_angle, 180, 1, 360, n);
        lemma_lowest_le(inside_angle, 180 * n - 360, n);
    }
    let on_vertex = position.numer == 0 || (!position.negative && position.numer == position.denom);
    let initial_angle = if on_vertex {
        match fraction_checked_sub(&full_turn, &inside_angle) {
            Some(x) => {
                proof {
                    lemma_sub_rep(full_turn, inside_angle, x, 360, 1, 180 * n - 360, n);
                    lemma_equals_rep(x, 360 * n - (180 * n - 360), n, 180 * n + 360, n);
                }
                x
            },
            None => return Err(GrazingError::ArithmeticOverflow),
        }
    } else {
        half_turn
    };
    let side_length = match fraction_checked_div(&two, &count) {
        Some(x) => x,
        None => return Err(GrazingError::ArithmeticOverflow),
    };
    Ok(Anchor { on_vertex, outside_angle, inside_angle, initial_angle, side_length })
}

/// Numerator, over `od * ld`, of the rope left after `k` further wraps when the
/// rope starts `on / od` of a side away from its first pivot and each side
/// is `ln / ld` long: `1 - (on/od)(ln/ld) - k (ln/ld)`.
pub open spec fn wrap_num(on: int, od: int, ln: int, ld: int, k: int) -> int {
    od * ld - on * ln - k * (ln * od)
}

/// `c` sectors are emitted: the first always, then one for each further
/// radius while it stays positive.
pub open spec fn wrap_stops_at(on: int, od: int, ln: int, ld: int, c: int) -> bool {
    &&& c >= 1
    &&& forall|k: int| 1 <= k < c ==> #[trigger] wrap_num(on, od, ln, ld, k) > 0
    &&& wrap_num(on, od, ln, ld, c) <= 0
}

/// The sectors that `generate` emits for an offset `on / od` and a side
/// length `ln / ld`.
pub open spec fn wrap_sequence_spec(
    cs: Seq<Circle>,
    on: int,
    od: int,
    ln: int,
    ld: int,
    outside_angle: Rational,
) -> bool {
    &&& wrap_stops_at(on, od, ln, ld, cs.len() as int)
    &&& forall|i: int|
        0 <= i < cs.len() ==> (#[trigger] cs[i]).radius.wf() && cs[i].radius.equals(
            wrap_num(on, od, ln, ld, i),
            od * ld,
        ) && cs[i].angle == outside_angle
}

proof fn lemma_wrap_step(on: int, od: int, ln: int, ld: int, k: int)
    ensures
        wrap_num(on, od, ln, ld, k + 1) == wrap_num(on, od, ln, ld, k) - ln * od,
        wrap_num(on, od, ln, ld, 0) == od * ld - on * ln,
{
    assert((k + 1) * (ln * od) == k * (ln * od) + ln * od) by (nonlinear_arith);
}

/// The sectors formed as the rope wraps vertex after vertex in one direction,
/// starting `offset` of a side away from the first vertex: the first at
/// radius `1 - offset × side_length`, each next one a side length shorter,
/// until the radius is no longer positive. `None` if an exact value overflows.
pub fn generate(offset: &Rational, side_length: &Rational, outside_angle: &Rational) -> (r: Option<
    Vec<Circle>,
>)
    requires
        offset.wf(),
        side_length.wf(),
        outside_angle.wf(),
        side_length.is_positive_spec(),
    ensures
        r matches Some(cs) ==> wrap_sequence_spec(
            cs@,
            offset.num(),
            offset.den(),
            side_length.num(),
            side_length.den(),
            *outside_angle,
        ),
        0 <= offset.num() <= offset.den() && side_length.fits() && offset.den() * side_length.den()
            <= LIMIT && offset.num() * side_length.num() <= LIMIT ==> r is Some,
{
    let ghost (on, od, ln, ld) = (offset.num(), offset.den(), side_length.num(), side_length.den());
    let ghost small = 0 <= on <= od && side_length.fits() && od * ld <= LIMIT && on * ln <= LIMIT;
    proof {
        lemma_pos_mul(od, ld);
        lemma_pos_mul(ln, od);
        lemma_wrap_step(on, od, ln, ld, 0);
        if small {
            assert(od <= od * ld) by (nonlinear_arith)
                requires
                    od > 0,
                    ld > 0,
            ;
            assert(offset.fits());
        }
    }
    let one = Rational::integer(1);
    let product = match fraction_checked_mul(offset, side_length) {
        Some(x) => x,
        None => return None,
    };
    proof {
        lemma_lowest_le(product, on * ln, od * ld);
    }
    let mut radius = match fraction_checked_sub(&one, &product) {
        Some(x) => x,
        None => return None,
    };
    proof {
        lemma_sub_rep(one, product, radius, 1, 1, on * ln, od * ld);
        lemma_lowest_le(radius, wrap_num(on, od, ln, ld, 0), od * ld);
        if small {
            assert(on * ln >= 0) by (nonlinear_arith)
                requires
                    on >= 0,
                    ln > 0,
            ;
        }
    }
    let mut circles: Vec<Circle> = Vec::new();
    circles.push(Circle::partial(radius, *outside_angle));
    let ghost mut k: int = 0;
    loop
        invariant
            circles@.len() == k + 1,
            k >= 0,
            radius.wf(),
            radius.equals(wrap_num(on, od, ln, ld, k), od * ld),
            forall|j: int| 1 <= j <= k ==> #[trigger] wrap_num(on, od, ln, ld, j) > 0,
            forall|i: int|
                0 <= i < circles@.len() ==> (#[trigger] circles@[i]).radius.wf() && circles@[i].radius.equals(
                    wrap_num(on, od, ln, ld, i),
                    od * ld,
                ) && circles@[i].angle == *outside_angle,
            small == (0 <= on <= od && side_length.fits() && od * ld <= LIMIT && on * ln <= LIMIT),
            small ==> radius.fits(),
            small ==> on * ln >= 0,
            od * ld > 0,
            ln * od > 0,
            ld > 0,
            offset.wf(),
            side_length.wf(),
            (on, od, ln, ld) == (offset.num(), offset.den(), side_length.num(), side_length.den()),
        ensures
            wrap_sequence_spec(circles@, on, od, ln, ld, *outside_angle),
        decreases
            if wrap_num(on, od, ln, ld, k + 1) > 0 { wrap_num(on, od, ln, ld, k + 1) } else { 0 }
    {
        let next = match fraction_checked_sub(&radius, side_length) {
            Some(x) => x,
            None => return None,
        };
        proof {
            let w = wrap_num(on, od, ln, ld, k);
            let w1 = wrap_num(on, od, ln, ld, k + 1);
            lemma_sub_rep(radius, *side_length, next, w, od * ld, ln, ld);
            lemma_wrap_step(on, od, ln, ld, k);
            lemma_wrap_step(on, od, ln, ld, k + 1);
            assert(w * ld - ln * (od * ld) == w1 * ld) by (nonlinear_arith)
                requires
                    w1 == w - ln * od,
            ;
            assert((od * ld) * ld > 0 && (w1 * ld) * (od * ld) == w1 * ((od * ld) * ld)) by (nonlinear_arith)
                requires
                    od * ld > 0,
                    ld > 0,
            ;
            lemma_equals_rep(next, w1 * ld, (od * ld) * ld, w1, od * ld);
            lemma_lowest_le(next, w1, od * ld);
        }
        if !next.is_positive() {
            break;
        }
        radius = next;
        proof {
            k = k + 1;
            if small {
                assert(wrap_num(on, od, ln, ld, k) <= od * ld) by (nonlinear_arith)
                    requires
                        k >= 0,
                        on * ln >= 0,
                        ln * od > 0,
                        wrap_num(on, od, ln, ld, k) == od * ld - on * ln - k * (ln * od),
                ;
            }
        }
        circles.push(Circle::partial(radius, *outside_angle));
    }
    Some(circles)
}

/// Exact sum of the sectors' areas, as a numerator and a positive denominator.
pub open spec fn area_sum(cs: Seq<Circle>) -> (int, int)
    decreases cs.len(),
{
    if cs.len() == 0 {
        (0, 1)
    } else {
        let p = area_sum(cs.drop_last());
        let c = cs.last();
        (p.0 * area_den(c) + area_num(c) * p.1, p.1 * area_den(c))
    }
}

pub open spec fn seq_sum(ms: Seq<int>) -> int
    decreases ms.len(),
{
    if ms.len() == 0 {
        0
    } else {
        seq_sum(ms.drop_last()) + ms.last()
    }
}

/// Each sector's area is `ms[i] / scale` for a whole `ms[i] >= 0`, and the
/// parts stay small enough that the exact running sum cannot overflow.
pub open spec fn summable(cs: Seq<Circle>, scale: int, ms: Seq<int>) -> bool {
    &&& 0 < scale <= LIMIT
    &&& ms.len() == cs.len()
    &&& forall|i: int|
        0 <= i < cs.len() ==> area_fits(#[trigger] cs[i]) && 0 <= ms[i] && area_num(cs[i]) * scale
            == ms[i] * area_den(cs[i])
    &&& seq_sum(ms) <= LIMIT
}

proof fn lemma_seq_sum_prefix(ms: Seq<int>, i: int)
    requires
        0 <= i <= ms.len(),
        forall|j: int| 0 <= j < ms.len() ==> ms[j] >= 0,
    ensures
        0 <= seq_sum(ms.take(i)) <= seq_sum(ms),
    decreases ms.len(),
{
    if ms.len() > 0 {
        let rest = ms.drop_last();
        assert forall|j: int| 0 <= j < rest.len() implies rest[j] >= 0 by {
            assert(rest[j] == ms[j]);
        }
        if i == ms.len() {
            assert(ms.take(i) =~= ms);
            lemma_seq_sum_prefix(rest, i - 1);
            assert(rest.take(i - 1) =~= rest.take(rest.len() as int));
        } else {
            lemma_seq_sum_prefix(rest, i);
            assert(rest.take(i) =~= ms.take(i));
            lemma_seq_sum_prefix(rest, rest.len() as int);
            assert(rest.take(rest.len() as int) =~= rest);
        }
    } else {
        assert(ms.take(i) =~= ms);
    }
}

/// The terms of the sectors, in order, joined by `" + "`.
pub open spec fn formula_text(cs: Seq<Circle>) -> Seq<char>
    decreases cs.len(),
{
    if cs.len() == 0 {
        Seq::empty()
    } else if cs.len() == 1 {
        term_text(cs[0])
    } else {
        formula_text(cs.drop_last()) + " + "@ + term_text(cs.last())
    }
}

pub open spec fn all_wf(cs: Seq<Circle>) -> bool {
    forall|i: int| 0 <= i < cs.len() ==> (#[trigger] cs[i]).wf()
}

proof fn lemma_area_den_pos(c: Circle)
    requires
        c.wf(),
    ensures
        area_den(c) > 0,
{
    lemma_pos_mul(c.radius.den(), c.radius.den());
    lemma_pos_mul(c.radius.den() * c.radius.den(), c.angle.den() * 360);
}

proof fn lemma_area_sum_den_pos(cs: Seq<Circle>)
    requires
        all_wf(cs),
    ensures
        area_sum(cs).1 > 0,
    decreases cs.len(),
{
    if cs.len() > 0 {
        assert(cs[cs.len() - 1].wf());
        lemma_area_sum_den_pos(cs.drop_last());
        lemma_area_den_pos(cs.last());
        lemma_pos_mul(area_sum(cs.drop_last()).1, area_den(cs.last()));
    }
}

/// The exact total area of the sectors in multiples of π, summed in order,
/// or `None` if an exact value overflows.
pub fn total_area(circles: &Vec<Circle>) -> (r: Option<Rational>)
    requires
        all_wf(circles@),
    ensures
        r matches Some(x) ==> x.wf() && x.equals(area_sum(circles@).0, area_sum(circles@).1),
        forall|scale: int, ms: Seq<int>| #[trigger] summable(circles@, scale, ms) ==> r is Some,
{
    let mut total = Rational::integer(0);
    let mut i: usize = 0;
    proof {
        assert(circles@.take(0) =~= Seq::<Circle>::empty());
    }
    while i < circles.len()
        invariant
            i <= circles@.len(),
            all_wf(circles@),
            total.wf(),
            total.equals(area_sum(circles@.take(i as int)).0, area_sum(circles@.take(i as int)).1),
            forall|scale: int, ms: Seq<int>| #[trigger]
                summable(circles@, scale, ms) ==> total.equals(seq_sum(ms.take(i as int)), scale),
        decreases circles@.len() - i,
    {
        let c = circles[i];
        proof {
            assert(c.wf());
        }
        let a = match c.area() {
            Some(x) => x,
            None => {
                proof {
                    assert forall|scale: int, ms: Seq<int>| #[trigger] summable(circles@, scale, ms) implies false by {
                        assert(area_fits(circles@[i as int]));
                    }
                }
                return None;
            },
        };
        let ghost old_total = total;
        let next = match fraction_checked_add(&total, &a) {
            Some(x) => x,
            None => {
                proof {
                    assert forall|scale: int, ms: Seq<int>| #[trigger] summable(circles@, scale, ms) implies false by {
                        lemma_summable_step(circles@, scale, ms, i as int, total, a);
                    }
                }
                return None;
            },
        };
        proof {
            assert forall|scale: int, ms: Seq<int>| #[trigger] summable(circles@, scale, ms) implies next.equals(
                seq_sum(ms.take(i + 1)),
                scale,
            ) by {
                lemma_summable_step(circles@, scale, ms, i as int, total, a);
                lemma_add_rep(total, a, next, seq_sum(ms.take(i as int)), scale, ms[i as int], scale);
                assert(ms.take(i + 1).drop_last() =~= ms.take(i as int));
                let t = seq_sum(ms.take(i as int));
                assert((t * scale + ms[i as int] * scale) * scale == (t + ms[i as int]) * (scale * scale))
                    by (nonlinear_arith);
                lemma_pos_mul(scale, scale);
                lemma_equals_rep(next, t * scale + ms[i as int] * scale, scale * scale, t + ms[i as int], scale);
            }
            let prefix = circles@.take(i as int);
            let longer = circles@.take(i as int + 1);
            assert(longer.drop_last() =~= prefix);
            assert(longer.last() == c);
            assert(all_wf(prefix));
            lemma_area_sum_den_pos(prefix);
            lemma_area_den_pos(c);
            lemma_add_rep(total, a, next, area_sum(prefix).0, area_sum(prefix).1, area_num(c), area_den(c));
        }
        total = next;
        i = i + 1;
    }
    proof {
        assert(circles@.take(circles@.len() as int) =~= circles@);
    }
    Some(total)
}

/// One step of the running sum: the running total and the next area are
/// operands small enough for an exact addition.
proof fn lemma_summable_step(cs: Seq<Circle>, scale: int, ms: Seq<int>, i: int, total: Rational, a: Rational)
    requires
        summable(cs, scale, ms),
        0 <= i < cs.len(),
        cs[i].wf(),
        total.wf(),
        total.equals(seq_sum(ms.take(i)), scale),
        a.wf(),
        a.equals(area_num(cs[i]), area_den(cs[i])),
    ensures
        total.fits(),
        a.fits(),
        a.equals(ms[i], scale),
        seq_sum(ms.take(i)) + ms[i] <= LIMIT,
{
    assert(area_fits(cs[i]));
    lemma_area_den_pos(cs[i]);
    lemma_equals_rep(a, area_num(cs[i]), area_den(cs[i]), ms[i], scale);
    lemma_lowest_le(a, ms[i], scale);
    assert forall|j: int| 0 <= j < ms.len() implies ms[j] >= 0 by {
        assert(area_fits(cs[j]));
    }
    lemma_seq_sum_prefix(ms, i);
    lemma_seq_sum_prefix(ms, i + 1);
    assert(ms.take(i + 1).drop_last() =~= ms.take(i));
    lemma_lowest_le(total, seq_sum(ms.take(i)), scale);
}

/// The formula for the total area: each sector's `(angle/360)(radius)²`,
/// in order, joined by `" + "`. `None` if an exact value overflows.
pub fn formula(circles: &Vec<Circle>) -> (r: Option<String>)
    requires
        all_wf(circles@),
    ensures
        r matches Some(s) ==> s@ == formula_text(circles@) && forall|i: int|
            0 <= i < circles@.len() ==> share_exact(#[trigger] circles@[i]),
        (forall|i: int| 0 <= i < circles@.len() ==> (#[trigger] circles@[i]).angle.fits()) ==> r is Some,
{
    let mut text = String::new();
    let mut i: usize = 0;
    proof {
        assert(circles@.take(0) =~= Seq::<Circle>::empty());
    }
    while i < circles.len()
        invariant
            i <= circles@.len(),
            all_wf(circles@),
            text@ == formula_text(circles@.take(i as int)),
            forall|j: int| 0 <= j < i ==> share_exact(#[trigger] circles@[j]),
        decreases circles@.len() - i,
    {
        let c = circles[i];
        proof {
            assert(c.wf());
        }
        let term = match c.area_formula() {
            Some(t) => t,
            None => return None,
        };
        proof {
            let longer = circles@.take(i as int + 1);
            assert(longer.drop_last() =~= circles@.take(i as int));
            assert(longer.last() == c);
            if i == 0 {
                assert(longer =~= seq![c]);
            }
        }
        if i > 0 {
            text.append(" + ");
        }
        text.append(term.as_str());
        i = i + 1;
    }
    proof {
        assert(circles@.take(circles@.len() as int) =~= circles@);
    }
    Some(text)
}

/// Everything one computation produces.
#[derive(Debug)]
pub struct GrazingResult {
    /// The anchor's own sector, then the left sequence, then the right one.
    pub circles: Vec<Circle>,
    pub left_count: usize,
    pub right_count: usize,
    /// The exact area in multiples of π.
    pub total_area: Rational,
    pub formula: String,
}

/// Offset into the first edge wrapped to the left, as numerator and denominator.
pub open spec fn left_offset(position: Rational) -> (int, int) {
    if on_vertex_spec(position) {
        (1, 1)
    } else {
        (position.num(), position.den())
    }
}

/// Offset into the first edge wrapped to the right.
pub open spec fn right_offset(position: Rational) -> (int, int) {
    if on_vertex_spec(position) {
        (1, 1)
    } else {
        (position.den() - position.num(), position.den())
    }
}

/// The wrap sequence of one direction for a polygon of `sides` sides.
pub open spec fn direction_spec(cs: Seq<Circle>, sides: int, offset: (int, int)) -> bool {
    wrap_sequence_spec(cs, offset.0, offset.1, 2, sides, canonical_of(360, sides))
}

/// What `compute` returns for valid `sides` and `position`.
pub open spec fn grazing_spec(g: GrazingResult, sides: int, position: Rational) -> bool {
    let cs = g.circles@;
    let v = on_vertex_spec(position);
    &&& cs.len() == 1 + g.left_count + g.right_count
    &&& cs[0].radius == Rational::integer_spec(1)
    &&& cs[0].angle.wf() && cs[0].angle.equals(initial_angle_num(sides, v), initial_angle_den(sides, v))
    &&& direction_spec(cs.subrange(1, 1 + g.left_count), sides, left_offset(position))
    &&& direction_spec(cs.subrange(1 + g.left_count, cs.len() as int), sides, right_offset(position))
    &&& forall|i: int| 0 <= i < cs.len() ==> (#[trigger] cs[i]).radius.is_positive_spec()
    &&& all_wf(cs)
    &&& g.total_area.wf() && g.total_area.equals(area_sum(cs).0, area_sum(cs).1)
    &&& g.formula@ == formula_text(cs)
    &&& forall|i: int| 0 <= i < cs.len() ==> share_exact(#[trigger] cs[i])
}

proof fn lemma_wrap_num_rep(
    big_on: int,
    big_od: int,
    big_ln: int,
    big_ld: int,
    on: int,
    od: int,
    ln: int,
    ld: int,
    k: int,
)
    requires
        big_on * od == on * big_od,
        big_ln * ld == ln * big_ld,
    ensures
        wrap_num(big_on, big_od, big_ln, big_ld, k) * (od * ld) == wrap_num(on, od, ln, ld, k) * (
        big_od * big_ld),
{
    let (a, b, c, d) = (big_on, big_od, big_ln, big_ld);
    assert((b * d) * (od * ld) == (od * ld) * (b * d)) by (nonlinear_arith);
    assert((a * c) * (od * ld) == (a * od) * (c * ld)) by (nonlinear_arith);
    assert((on * b) * (ln * d) == (on * ln) * (b * d)) by (nonlinear_arith);
    assert((k * (c * b)) * (od * ld) == (k * b * od) * (c * ld)) by (nonlinear_arith);
    assert((k * b * od) * (ln * d) == (k * (ln * od)) * (b * d)) by (nonlinear_arith);
    assert(wrap_num(a, b, c, d, k) * (od * ld) == (b * d) * (od * ld) - (a * c) * (od * ld) - (k * (c
        * b)) * (od * ld)) by (nonlinear_arith);
    assert(wrap_num(on, od, ln, ld, k) * (b * d) == (od * ld) * (b * d) - (on * ln) * (b * d) - (k * (
    ln * od)) * (b * d)) by (nonlinear_arith);
}

/// A wrap sequence stated over one representation of its offset and side
/// length holds over any other.
proof fn lemma_wrap_sequence_rep(
    cs: Seq<Circle>,
    big_on: int,
    big_od: int,
    big_ln: int,
    big_ld: int,
    on: int,
    od: int,
    ln: int,
    ld: int,
    angle: Rational,
)
    requires
        wrap_sequence_spec(cs, big_on, big_od, big_ln, big_ld, angle),
        big_od > 0,
        big_ld > 0,
        od > 0,
        ld > 0,
        big_on * od == on * big_od,
        big_ln * ld == ln * big_ld,
    ensures
        wrap_sequence_spec(cs, on, od, ln, ld, angle),
{
    lemma_pos_mul(od, ld);
    lemma_pos_mul(big_od, big_ld);
    assert forall|k: int| true implies (wrap_num(big_on, big_od, big_ln, big_ld, k) > 0 <==> #[trigger] wrap_num(
        on,
        od,
        ln,
        ld,
        k,
    ) > 0) && wrap_num(big_on, big_od, big_ln, big_ld, k) * (od * ld) == wrap_num(on, od, ln, ld, k) * (
    big_od * big_ld) by {
        lemma_wrap_num_rep(big_on, big_od, big_ln, big_ld, on, od, ln, ld, k);
        lemma_sign_match(
            wrap_num(big_on, big_od, big_ln, big_ld, k),
            big_od * big_ld,
            wrap_num(on, od, ln, ld, k),
            od * ld,
        );
    }
    assert forall|i: int| 0 <= i < cs.len() implies (#[trigger] cs[i]).radius.equals(
        wrap_num(on, od, ln, ld, i),
        od * ld,
    ) by {
        lemma_equals_rep(
            cs[i].radius,
            wrap_num(big_on, big_od, big_ln, big_ld, i),
            big_od * big_ld,
            wrap_num(on, od, ln, ld, i),
            od * ld,
        );
    }
}

/// Inputs small enough that every exact intermediate value fits the
/// checked operations: `6 × sides³ × denom² <= LIMIT` and `360 × sides <= LIMIT`,
/// where `denom` is the position's denominator in lowest terms.
pub open spec fn within_exact_range(sides: int, position: Rational) -> bool {
    &&& 6 * (sides * sides * sides) * (position.den() * position.den()) <= LIMIT
    &&& 360 * sides <= LIMIT
}

/// The common scale over which every sector's area is a whole number.
pub open spec fn grazing_scale(sides: int, position: Rational) -> int {
    2 * (sides * sides * sides) * (position.den() * position.den())
}

/// `position.den()` over the offsets' denominator.
pub open spec fn offset_factor(position: Rational) -> int {
    if on_vertex_spec(position) {
        position.den()
    } else {
        1
    }
}

pub open spec fn scaled_wrap_area(sides: int, position: Rational, offset: (int, int), k: int) -> int {
    let w = wrap_num(offset.0, offset.1, 2, sides, k);
    let t = offset_factor(position);
    2 * (w * w) * (t * t)
}

/// The areas of a result's sectors times `grazing_scale`.
pub open spec fn scaled_areas(sides: int, position: Rational, left_count: int, len: int) -> Seq<int> {
    Seq::new(
        len as nat,
        |i: int|
            if i == 0 {
                if on_vertex_spec(position) {
                    sides * sides * (position.den() * position.den()) * (sides + 2)
                } else {
                    sides * sides * sides * (position.den() * position.den())
                }
            } else if i < 1 + left_count {
                scaled_wrap_area(sides, position, left_offset(position), i - 1)
            } else {
                scaled_wrap_area(sides, position, right_offset(position), i - 1 - left_count)
            },
    )
}

proof fn lemma_seq_sum_bound(ms: Seq<int>, first: int, rest: int)
    requires
        ms.len() >= 1,
        ms[0] <= first,
        forall|i: int| 1 <= i < ms.len() ==> #[trigger] ms[i] <= rest,
    ensures
        seq_sum(ms) <= first + (ms.len() - 1) * rest,
    decreases ms.len(),
{
    if ms.len() == 1 {
        assert(ms.drop_last() =~= Seq::<int>::empty());
        assert(seq_sum(ms.drop_last()) == 0);
        assert(ms.last() == ms[0]);
    } else {
        let shorter = ms.drop_last();
        assert(shorter[0] == ms[0]);
        assert forall|i: int| 1 <= i < shorter.len() implies #[trigger] shorter[i] <= rest by {
            assert(shorter[i] == ms[i]);
        }
        lemma_seq_sum_bound(shorter, first, rest);
        assert(ms.last() <= rest);
        assert((shorter.len() - 1) * rest + rest == (ms.len() - 1) * rest) by (nonlinear_arith)
            requires
                shorter.len() + 1 == ms.len(),
        ;
    }
}

proof fn lemma_wrap_count_bound(on: int, od: int, n: int, c: int)
    requires
        wrap_stops_at(on, od, 2, n, c),
        0 <= on,
        od > 0,
        n >= 3,
    ensures
        c <= n,
{
    if c >= 2 {
        let w = wrap_num(on, od, 2, n, c - 1);
        assert(w > 0);
        assert(od * (2 * (c - 1) - n) < 0) by (nonlinear_arith)
            requires
                w == od * n - on * 2 - (c - 1) * (2 * od),
                w > 0,
                on >= 0,
        ;
        assert(2 * (c - 1) - n < 0) by (nonlinear_arith)
            requires
                od * (2 * (c - 1) - n) < 0,
                od > 0,
        ;
    }
}

proof fn lemma_monomial(r: int, a: int, m: int, n: int, t: int, o: int)
    ensures
        (r * a) * (2 * (m * n) * (t * o)) == 2 * t * (r * o * m) * (a * n),
{
    assert((r * a) * (2 * (m * n) * (t * o)) == 2 * t * (r * o * m) * (a * n)) by (nonlinear_arith);
}

proof fn lemma_wrap_area_scaled(rn: int, rd: int, an: int, ad: int, w: int, od: int, n: int, t: int)
    requires
        rn * (od * n) == w * rd,
        an * n == 360 * ad,
    ensures
        (rn * rn * an) * (2 * (n * n * n) * ((t * od) * (t * od))) == (2 * (w * w) * (t * t)) * ((rd
            * rd) * (ad * 360)),
{
    let x = rn * (od * n);
    let (rr, oo, nn, tt) = (rn * rn, od * od, n * n, t * t);
    assert((t * od) * (t * od) == tt * oo) by (nonlinear_arith)
        requires
            tt == t * t,
            oo == od * od,
    ;
    assert(n * n * n == nn * n) by (nonlinear_arith)
        requires
            nn == n * n,
    ;
    lemma_monomial(rr, an, nn, n, tt, oo);
    assert(rr * oo * nn == x * x) by (nonlinear_arith)
        requires
            x == rn * (od * n),
            rr == rn * rn,
            oo == od * od,
            nn == n * n,
    ;
    assert(x * x == (w * w) * (rd * rd)) by (nonlinear_arith)
        requires
            x == w * rd,
    ;
    assert(2 * tt * ((w * w) * (rd * rd)) * (360 * ad) == (2 * (w * w) * (t * t)) * ((rd * rd) * (ad
        * 360))) by (nonlinear_arith)
        requires
            tt == t * t,
    ;
}

/// A wrap sector of a result within the exact range: its parts fit and its
/// area times the common scale is `scaled_wrap_area`.
proof fn lemma_wrap_circle_scaled(c: Circle, w: int, od: int, n: int, b: int, t: int)
    requires
        c.radius.wf(),
        c.radius.equals(w, od * n),
        c.angle.canonical(),
        c.angle.equals(360, n),
        0 < w <= od * n,
        t * od == b,
        od > 0,
        t > 0,
        n >= 3,
        6 * (n * n * n) * (b * b) <= LIMIT,
        360 * n <= LIMIT,
    ensures
        area_fits(c),
        area_num(c) * (2 * (n * n * n) * (b * b)) == (2 * (w * w) * (t * t)) * area_den(c),
        0 <= 2 * (w * w) * (t * t) <= 2 * (b * b) * (n * n),
{
    lemma_pos_mul(od, n);
    lemma_lowest_le(c.radius, w, od * n);
    lemma_lowest_le(c.angle, 360, n);
    assert(w * t <= b * n && (b * n) * (b * n) <= LIMIT) by (nonlinear_arith)
        requires
            0 < w <= od * n,
            t * od == b,
            t > 0,
            n >= 3,
            6 * (n * n * n) * (b * b) <= LIMIT,
    ;
    assert(od * n <= b * n) by (nonlinear_arith)
        requires
            t * od == b,
            t > 0,
            od > 0,
            n > 0,
    ;
    let (rn, rd) = (c.radius.numer as int, c.radius.denom as int);
    assert(rn * rn <= LIMIT && rd * rd <= LIMIT) by (nonlinear_arith)
        requires
            0 <= rn <= w,
            0 < rd <= od * n,
            w <= od * n,
            od * n <= b * n,
            (b * n) * (b * n) <= LIMIT,
    ;
    lemma_wrap_area_scaled(c.radius.num(), c.radius.den(), c.angle.num(), c.angle.den(), w, od, n, t);
    assert(0 < w * t) by (nonlinear_arith)
        requires
            w > 0,
            t > 0,
    ;
    assert(0 <= 2 * (w * w) * (t * t) <= 2 * (b * b) * (n * n)) by (nonlinear_arith)
        requires
            0 < w * t <= b * n,
            w > 0,
            t > 0,
    ;
}

proof fn lemma_wrap_in_range(on: int, od: int, n: int, k: int, c: int)
    requires
        wrap_stops_at(on, od, 2, n, c),
        0 <= k < c,
        0 <= on <= od,
        od > 0,
        n >= 3,
    ensures
        0 < wrap_num(on, od, 2, n, k) <= od * n,
{
    let w = wrap_num(on, od, 2, n, k);
    assert(w <= od * n) by (nonlinear_arith)
        requires
            w == od * n - on * 2 - k * (2 * od),
            k >= 0,
            on >= 0,
            od > 0,
    ;
    if k == 0 {
        assert(w > 0) by (nonlinear_arith)
            requires
                w == od * n - on * 2 - 0 * (2 * od),
                on <= od,
                od > 0,
                n >= 3,
        ;
    } else {
        assert(w > 0);
    }
}

/// Within the exact range, every sector's area is a small whole multiple of
/// `1 / grazing_scale`, so the running sum cannot overflow.
proof fn lemma_compute_summable(cs: Seq<Circle>, lc: int, n: int, position: Rational, outside: Rational)
    requires
        n >= 3,
        position.wf(),
        in_unit_interval(position),
        within_exact_range(n, position),
        0 <= lc,
        1 + lc <= cs.len(),
        cs[0].radius == Rational::integer_spec(1),
        cs[0].angle.wf(),
        cs[0].angle.equals(
            initial_angle_num(n, on_vertex_spec(position)),
            initial_angle_den(n, on_vertex_spec(position)),
        ),
        outside.canonical(),
        outside.equals(360, n),
        wrap_sequence_spec(cs.subrange(1, 1 + lc), left_offset(position).0, left_offset(position).1, 2, n, outside),
        wrap_sequence_spec(
            cs.subrange(1 + lc, cs.len() as int),
            right_offset(position).0,
            right_offset(position).1,
            2,
            n,
            outside,
        ),
    ensures
        summable(cs, grazing_scale(n, position), scaled_areas(n, position, lc, cs.len() as int)),
        forall|i: int| 0 <= i < cs.len() ==> (#[trigger] cs[i]).angle.fits(),
{
    let b = position.den();
    let d = grazing_scale(n, position);
    let ms = scaled_areas(n, position, lc, cs.len() as int);
    let v = on_vertex_spec(position);
    let t = offset_factor(position);
    let left = cs.subrange(1, 1 + lc);
    let right = cs.subrange(1 + lc, cs.len() as int);
    let lo = left_offset(position);
    let ro = right_offset(position);
    assert(0 < d <= LIMIT && 3 * d <= LIMIT && n * n * n * (b * b) >= 0 && 2 * (b * b) * (n * n) * (2 * n) == 2 * d) by (nonlinear_arith)
        requires
            d == 2 * (n * n * n) * (b * b),
            6 * (n * n * n) * (b * b) <= LIMIT,
            n >= 3,
            b > 0,
    ;
    assert(t * lo.1 == b && t * ro.1 == b && t > 0);
    assert(0 <= lo.0 <= lo.1 && 0 <= ro.0 <= ro.1);
    lemma_wrap_count_bound(lo.0, lo.1, n, left.len() as int);
    lemma_wrap_count_bound(ro.0, ro.1, n, right.len() as int);
    assert forall|i: int| 0 <= i < cs.len() implies area_fits(#[trigger] cs[i]) && 0 <= ms[i] && area_num(cs[i]) * d
        == ms[i] * area_den(cs[i]) && cs[i].angle.fits() && (i == 0 ==> ms[i] <= d) && (i > 0 ==> ms[i] <= 2
        * (b * b) * (n * n)) by {
        if i == 0 {
            let a = cs[0].angle;
            let (an, ad) = (initial_angle_num(n, v), initial_angle_den(n, v));
            lemma_lowest_le(a, an, ad);
            assert(180 * n + 360 <= LIMIT);
            if v {
                assert(a.num() * d == ms[0] * (a.den() * 360) && ms[0] <= d && ms[0] >= 0) by (nonlinear_arith)
                    requires
                        a.num() * n == (180 * n + 360) * a.den(),
                        ms[0] == n * n * (b * b) * (n + 2),
                        d == 2 * (n * n * n) * (b * b),
                        n >= 3,
                ;
            } else {
                assert(a.num() * d == ms[0] * (a.den() * 360) && ms[0] <= d && ms[0] >= 0) by (nonlinear_arith)
                    requires
                        a.num() * 1 == 180 * a.den(),
                        ms[0] == n * n * n * (b * b),
                        d == 2 * (n * n * n) * (b * b),
                        n >= 3,
                ;
            }
            assert(cs[0].radius.num() == 1 && cs[0].radius.den() == 1);
            let r = cs[0].radius;
            assert(area_num(cs[0]) == a.num() && area_den(cs[0]) == a.den() * 360) by (nonlinear_arith)
                requires
                    r.num() == 1,
                    r.den() == 1,
                    area_num(cs[0]) == (r.num() * r.num()) * a.num(),
                    area_den(cs[0]) == (r.den() * r.den()) * (a.den() * 360),
            ;
        } else if i < 1 + lc {
            let k = i - 1;
            assert(cs[i] == left[k]);
            lemma_wrap_in_range(lo.0, lo.1, n, k, left.len() as int);
            lemma_wrap_circle_scaled(cs[i], wrap_num(lo.0, lo.1, 2, n, k), lo.1, n, b, t);
        } else {
            let k = i - 1 - lc;
            assert(cs[i] == right[k]);
            lemma_wrap_in_range(ro.0, ro.1, n, k, right.len() as int);
            lemma_wrap_circle_scaled(cs[i], wrap_num(ro.0, ro.1, 2, n, k), ro.1, n, b, t);
        }
    }
    assert forall|i: int| 1 <= i < ms.len() implies #[trigger] ms[i] <= 2 * (b * b) * (n * n) by {
        assert(area_fits(cs[i]));
    }
    assert(ms[0] <= d) by {
        assert(area_fits(cs[0]));
    }
    lemma_seq_sum_bound(ms, d, 2 * (b * b) * (n * n));
    assert(seq_sum(ms) <= LIMIT) by (nonlinear_arith)
        requires
            seq_sum(ms) <= d + (ms.len() - 1) * (2 * (b * b) * (n * n)),
            ms.len() - 1 <= 2 * n,
            2 * (b * b) * (n * n) >= 0,
            2 * (b * b) * (n * n) * (2 * n) == 2 * d,
            3 * d <= LIMIT,
    ;
}

/// Computes the grazing area for a regular polygon of `sides` sides with the
/// rope tied `position` of the way along one edge.
pub fn compute(sides: u32, position: &Rational) -> (r: Result<GrazingResult, GrazingError>)
    requires
        position.wf(),
    ensures
        sides < 3 ==> r == Err::<GrazingResult, GrazingError>(GrazingError::InvalidPolygon),
        sides >= 3 && !in_unit_interval(*position) ==> r == Err::<GrazingResult, GrazingError>(
            GrazingError::InvalidPosition,
        ),
        r matches Ok(g) ==> sides >= 3 && in_unit_interval(*position) && grazing_spec(g, sides as int, *position),
        r matches Err(e) ==> e == GrazingError::ArithmeticOverflow ==> sides >= 3 && in_unit_interval(
            *position,
        ),
        sides >= 3 && in_unit_interval(*position) && within_exact_range(sides as int, *position) ==> r is Ok,
{
    if sides < 3 {
        return Err(GrazingError::InvalidPolygon);
    }
    if (position.negative && position.numer > 0) || position.numer > position.denom {
        return Err(GrazingError::InvalidPosition);
    }
    let ghost n = sides as int;
    let ghost small = within_exact_range(n, *position);
    proof {
        if small {
            let b = position.den();
            assert(b <= LIMIT && b * n <= LIMIT && 2 * b <= LIMIT) by (nonlinear_arith)
                requires
                    6 * (n * n * n) * (b * b) <= LIMIT,
                    n >= 3,
                    b >= 1,
            ;
        }
    }
    let anchor = match classify(sides, position) {
        Ok(a) => a,
        Err(e) => return Err(e),
    };
    let one = Rational::integer(1);
    let first = Circle::partial(one, anchor.initial_angle);
    let (left_start, right_start) = if anchor.on_vertex {
        (one, one)
    } else {
        match fraction_checked_sub(&one, position) {
            Some(x) => {
                proof {
                    lemma_sub_rep(one, *position, x, 1, 1, position.num(), position.den());
                    let (a, b) = (position.num(), position.den());
                    lemma_lowest_le(x, 1 * b - a * 1, 1 * b);
                    assert(x.num() <= x.den()) by (nonlinear_arith)
                        requires
                            x.num() * (1 * b) == (1 * b - a * 1) * x.den(),
                            0 <= a,
                            b > 0,
                            x.den() > 0,
                    ;
                }
                (*position, x)
            },
            None => return Err(GrazingError::ArithmeticOverflow),
        }
    };
    proof {
        lemma_pos_mul(1, 1);
        lemma_canonical_of(anchor.outside_angle, 360, n);
        lemma_lowest_le(anchor.side_length, 2, n);
        if small {
            let (l, b) = (anchor.side_length, position.den());
            assert(left_start.den() * l.den() <= LIMIT && right_start.den() * l.den() <= LIMIT
                && left_start.num() * l.num() <= LIMIT && right_start.num() * l.num() <= LIMIT)
                by (nonlinear_arith)
                requires
                    0 < left_start.den() <= b,
                    0 < right_start.den() <= b,
                    0 <= left_start.num() <= b,
                    0 <= right_start.num() <= b,
                    0 < l.num() <= 2,
                    0 < l.den() <= n,
                    b * n <= LIMIT,
                    2 * b <= LIMIT,
            ;
        }
    }
    let mut left = match generate(&left_start, &anchor.side_length, &anchor.outside_angle) {
        Some(cs) => cs,
        None => return Err(GrazingError::ArithmeticOverflow),
    };
    let mut right = match generate(&right_start, &anchor.side_length, &anchor.outside_angle) {
        Some(cs) => cs,
        None => return Err(GrazingError::ArithmeticOverflow),
    };
    let ghost left_seq = left@;
    let ghost right_seq = right@;
    let left_count = left.len();
    let right_count = right.len();
    proof {
        let lo = left_offset(*position);
        let ro = right_offset(*position);
        lemma_wrap_sequence_rep(
            left_seq,
            left_start.num(),
            left_start.den(),
            anchor.side_length.num(),
            anchor.side_length.den(),
            lo.0,
            lo.1,
            2,
            n,
            anchor.outside_angle,
        );
        lemma_wrap_sequence_rep(
            right_seq,
            right_start.num(),
            right_start.den(),
            anchor.side_length.num(),
            anchor.side_length.den(),
            ro.0,
            ro.1,
            2,
            n,
            anchor.outside_angle,
        );
    }
    let mut circles: Vec<Circle> = Vec::new();
    circles.push(first);
    circles.append(&mut left);
    circles.append(&mut right);
    let ghost cs = circles@;
    proof {
        assert(cs.subrange(1, 1 + left_count as int) =~= left_seq);
        assert(cs.subrange(1 + left_count as int, cs.len() as int) =~= right_seq);
        assert forall|i: int| 0 <= i < cs.len() implies (#[trigger] cs[i]).wf() && cs[i].radius.is_positive_spec() by {
            if i == 0 {
            } else if i < 1 + left_count {
                assert(cs[i] == left_seq[i - 1]);
                lemma_direction_positive(left_seq, n, left_offset(*position), i - 1);
            } else {
                assert(cs[i] == right_seq[i - 1 - left_count]);
                lemma_direction_positive(right_seq, n, right_offset(*position), i - 1 - left_count);
            }
        }
    }
    proof {
        if small {
            lemma_compute_summable(cs, left_count as int, n, *position, anchor.outside_angle);
            assert(summable(circles@, grazing_scale(n, *position), scaled_areas(n, *position, left_count as int, cs.len() as int)));
        }
    }
    let total_area = match total_area(&circles) {
        Some(x) => x,
        None => return Err(GrazingError::ArithmeticOverflow),
    };
    let formula = match formula(&circles) {
        Some(s) => s,
        None => return Err(GrazingError::ArithmeticOverflow),
    };
    Ok(GrazingResult { circles, left_count, right_count, total_area, formula })
}

/// Every sector of a direction with an offset in `[0, 1]` has a positive radius.
proof fn lemma_direction_positive(cs: Seq<Circle>, sides: int, offset: (int, int), i: int)
    requires
        direction_spec(cs, sides, offset),
        canonical_of(360, sides).canonical(),
        sides >= 3,
        0 <= offset.0 <= offset.1,
        offset.1 > 0,
        0 <= i < cs.len(),
    ensures
        cs[i].radius.is_positive_spec(),
        cs[i].wf(),
{
    let w = wrap_num(offset.0, offset.1, 2, sides, i);
    if i == 0 {
        assert(w > 0) by (nonlinear_arith)
            requires
                w == offset.1 * sides - offset.0 * 2 - 0 * (2 * offset.1),
                0 <= offset.0 <= offset.1,
                sides >= 3,
                offset.1 > 0,
        ;
    } else {
        assert(w > 0);
    }
    lemma_pos_mul(offset.1, sides);
    lemma_lowest_le(cs[i].radius, w, offset.1 * sides);
}

/// A direction's sector count is fixed by its offset and side length.
pub proof fn lemma_wrap_count_unique(on: int, od: int, ln: int, ld: int, c1: int, c2: int)
    requires
        wrap_stops_at(on, od, ln, ld, c1),
        wrap_stops_at(on, od, ln, ld, c2),
    ensures
        c1 == c2,
{
    if c1 < c2 {
        assert(wrap_num(on, od, ln, ld, c1) > 0);
    } else if c2 < c1 {
        assert(wrap_num(on, od, ln, ld, c2) > 0);
    }
}

/// With the rope tied at a vertex, the left and right wrap sequences have
/// the same length and the same sectors, term by term.
pub proof fn lemma_vertex_symmetry(g: GrazingResult, sides: int, position: Rational)
    requires
        sides >= 3,
        position.wf(),
        on_vertex_spec(position),
        grazing_spec(g, sides, position),
    ensures
        g.left_count == g.right_count,
        forall|k: int|
            0 <= k < g.left_count ==> #[trigger] g.circles@[1 + k] == g.circles@[1 + g.left_count + k],
{
    let cs = g.circles@;
    let lc = g.left_count as int;
    let left = cs.subrange(1, 1 + lc);
    let right = cs.subrange(1 + lc, cs.len() as int);
    lemma_wrap_count_unique(1, 1, 2, sides, left.len() as int, right.len() as int);
    assert forall|k: int| 0 <= k < lc implies #[trigger] cs[1 + k] == cs[1 + lc + k] by {
        let x = left[k];
        let y = right[k];
        assert(x == cs[1 + k]);
        assert(y == cs[1 + lc + k]);
        assert(x.radius.is_positive_spec());
        assert(y.radius.is_positive_spec());
        lemma_equals_trans(x.radius, y.radius, wrap_num(1, 1, 2, sides, k), 1 * sides);
        lemma_canonical_unique(x.radius, y.radius);
    }
}

/// Value of one term of the formula, read off the numbers it shows:
/// `share × radius²` as numerator and denominator.
pub open spec fn term_value(c: Circle) -> (int, int) {
    let q = sweep_share(c);
    (q.num() * (c.radius.num() * c.radius.num()), q.den() * (c.radius.den() * c.radius.den()))
}

/// The formula evaluated term by term, left to right, in exact arithmetic.
pub open spec fn formula_value(cs: Seq<Circle>) -> (int, int)
    decreases cs.len(),
{
    if cs.len() == 0 {
        (0, 1)
    } else {
        let p = formula_value(cs.drop_last());
        let t = term_value(cs.last());
        (p.0 * t.1 + t.0 * p.1, p.1 * t.1)
    }
}

proof fn lemma_sum_congruent(p: int, q: int, pp: int, qq: int, x: int, y: int, xx: int, yy: int)
    requires
        p * qq == pp * q,
        x * yy == xx * y,
    ensures
        (p * y + x * q) * (qq * yy) == (pp * yy + xx * qq) * (q * y),
{
    assert((p * y) * (qq * yy) == (p * qq) * (y * yy)) by (nonlinear_arith);
    assert((pp * q) * (y * yy) == (pp * yy) * (q * y)) by (nonlinear_arith);
    assert((x * q) * (qq * yy) == (x * yy) * (q * qq)) by (nonlinear_arith);
    assert((xx * y) * (q * qq) == (xx * qq) * (q * y)) by (nonlinear_arith);
    assert((p * y + x * q) * (qq * yy) == (p * y) * (qq * yy) + (x * q) * (qq * yy)) by (nonlinear_arith);
    assert((pp * yy + xx * qq) * (q * y) == (pp * yy) * (q * y) + (xx * qq) * (q * y)) by (nonlinear_arith);
}

proof fn lemma_term_matches_area(c: Circle)
    requires
        c.wf(),
        share_exact(c),
    ensures
        area_num(c) * term_value(c).1 == term_value(c).0 * area_den(c),
        term_value(c).1 > 0,
{
    let q = sweep_share(c);
    let (rn, rd, an, ad) = (c.radius.num(), c.radius.den(), c.angle.num(), c.angle.den());
    assert((rn * rn * an) * (q.den() * (rd * rd)) == (q.num() * (rn * rn)) * ((rd * rd) * (ad * 360)))
        by (nonlinear_arith)
        requires
            q.num() * (ad * 360) == an * q.den(),
    ;
    lemma_pos_mul(rd, rd);
    lemma_pos_mul(q.den(), rd * rd);
}

proof fn lemma_formula_value_matches(cs: Seq<Circle>)
    requires
        all_wf(cs),
        forall|i: int| 0 <= i < cs.len() ==> share_exact(#[trigger] cs[i]),
    ensures
        area_sum(cs).0 * formula_value(cs).1 == formula_value(cs).0 * area_sum(cs).1,
        formula_value(cs).1 > 0,
    decreases cs.len(),
{
    if cs.len() > 0 {
        let rest = cs.drop_last();
        let c = cs.last();
        assert(c == cs[cs.len() - 1]);
        assert(c.wf() && share_exact(c));
        assert forall|i: int| 0 <= i < rest.len() implies share_exact(#[trigger] rest[i]) && rest[i].wf() by {
            assert(rest[i] == cs[i]);
        }
        lemma_formula_value_matches(rest);
        lemma_term_matches_area(c);
        lemma_sum_congruent(
            area_sum(rest).0,
            area_sum(rest).1,
            formula_value(rest).0,
            formula_value(rest).1,
            area_num(c),
            area_den(c),
            term_value(c).0,
            term_value(c).1,
        );
        lemma_pos_mul(formula_value(rest).1, term_value(c).1);
    }
}

/// The formula and the total agree: the formula lists one term per sector,
/// in order, and evaluating its terms from the shares and radii they show
/// gives exactly the total area.
pub proof fn lemma_formula_matches_total(g: GrazingResult, sides: int, position: Rational)
    requires
        grazing_spec(g, sides, position),
    ensures
        g.formula@ == formula_text(g.circles@),
        g.total_area.equals(formula_value(g.circles@).0, formula_value(g.circles@).1),
{
    let cs = g.circles@;
    lemma_area_sum_den_pos(cs);
    lemma_formula_value_matches(cs);
    lemma_equals_rep(g.total_area, area_sum(cs).0, area_sum(cs).1, formula_value(cs).0, formula_value(cs).1);
}

} // verus!
