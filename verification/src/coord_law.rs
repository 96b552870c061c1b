//! How exactly coordinates are stored.

use vstd::prelude::*;

use crate::bytes::pow2n;
use crate::double::{lemma_pow2n_values, round_signed, round_whole, rounding_mirrors};
use crate::extractor::packed;
use crate::osm::NodeView;
use crate::store::{
    coord_of, degrees, half_up, line_of, rounded_e7, saturated, store_len, stored, PackedCoord,
    NANO,
};
use crate::turn_law::rounding_is_close;

verus! {

proof fn lemma_positive(n: nat)
    requires
        n <= 180_000_000_000,
    ensures
        -50 <= 100 * rounded_e7(n as int) - n <= 50,
{
    lemma_pow2n_values();
    assert(pow2n(82) == 2 * pow2n(81));
    let p = (n * NANO) as nat;
    assert(p == n * 0x11_2e0b_e826_d695);
    rounding_is_close(n);
    rounding_is_close(p);
    let d = round_whole(p);
    let q = d * 10_000_000;
    rounding_is_close(q);
    let v = round_whole(q);
    assert(degrees(n as int) == d);
    assert(rounded_e7(n as int) == half_up(v));
    let e = half_up(v) as int;
    let unit = pow2n(82) as int;
    let w = v + pow2n(81) as int;
    vstd::arithmetic::div_mod::lemma_fundamental_div_mod(w, unit);
    assert(w == unit * e + w % unit);
    assert(unit * e == 0x4_0000_0000_0000_0000_0000 * e);
    assert(0 <= w - 0x4_0000_0000_0000_0000_0000 * e < 0x4_0000_0000_0000_0000_0000);
}

proof fn lemma_odd(nano: int)
    ensures
        rounded_e7(-nano) == -rounded_e7(nano),
{
    rounding_mirrors(nano);
    let a = round_signed(nano);
    assert((-a) * NANO == -(a * NANO)) by (nonlinear_arith);
    rounding_mirrors(a * NANO);
    let d = degrees(nano);
    assert((-d) * 10_000_000 == -(d * 10_000_000));
    rounding_mirrors(d * 10_000_000);
    let v = round_signed(d * 10_000_000);
    if v == 0 {
        lemma_pow2n_values();
        assert(pow2n(82) == 2 * pow2n(81));
        vstd::arithmetic::div_mod::lemma_basic_div(pow2n(81) as int, pow2n(82) as int);
        assert(half_up(0) == 0);
    }
}

/// A coordinate of up to 180 degrees is stored as the nearest multiple of `1e-7` degrees,
/// and as its mirror image for the opposite coordinate.
pub proof fn coordinates_round_to_nearest(nano: int)
    requires
        -180_000_000_000 <= nano <= 180_000_000_000,
    ensures
        -50 <= 100 * rounded_e7(nano) - nano <= 50,
        rounded_e7(-nano) == -rounded_e7(nano),
{
    lemma_odd(nano);
    if nano >= 0 {
        lemma_positive(nano as nat);
    } else {
        lemma_positive((-nano) as nat);
    }
}

/// A node is stored at its own longitude and latitude, to the nearest multiple of `1e-7`
/// degrees.
pub proof fn nodes_stored_in_place(n: NodeView)
    requires
        -180_000_000_000 <= n.lon_nano <= 180_000_000_000,
        -90_000_000_000 <= n.lat_nano <= 90_000_000_000,
    ensures
        -50 <= 100 * packed(n).lon_e7 - n.lon_nano <= 50,
        -50 <= 100 * packed(n).lat_e7 - n.lat_nano <= 50,
{
    coordinates_round_to_nearest(n.lon_nano);
    coordinates_round_to_nearest(n.lat_nano);
}

/// A number that 32 bits do not hold becomes the nearest that they do.
pub proof fn saturation_is_nearest(v: int)
    ensures
        -2147483648 <= v <= 2147483647 ==> saturated(v) == v,
        v > 2147483647 ==> saturated(v) == 2147483647,
        v < -2147483648 ==> saturated(v) == -2147483648,
{
}

/// The line of a way runs through the stored nodes in the order of its refs; those that are
/// not stored are left out.
pub proof fn lines_run_through_nodes(
    ids: crate::bitset::RankedBitSet,
    map: Seq<u8>,
    refs: Seq<i64>,
    n: nat,
    c: PackedCoord,
)
    requires
        n <= refs.len(),
    ensures
        line_of(ids, map, refs, n).len() <= n,
        line_of(ids, map, refs, n).contains(c) <==> exists|i: int|
            0 <= i < n && stored(ids, map, (#[trigger] refs[i]) as u64) == Some(c),
        (forall|i: int| 0 <= i < n ==> ids.has((#[trigger] refs[i]) as u64)) ==> line_of(
            ids,
            map,
            refs,
            n,
        ).len() == n,
    decreases n,
{
    if n > 0 {
        let k = (n - 1) as nat;
        lines_run_through_nodes(ids, map, refs, k, c);
        let front = line_of(ids, map, refs, k);
        let out = line_of(ids, map, refs, n);
        if out.contains(c) {
            let i = choose|i: int| 0 <= i < out.len() && out[i] == c;
            if i < front.len() {
                assert(front[i] == c);
                assert(front.contains(c));
            } else {
                assert(stored(ids, map, refs[n - 1] as u64) == Some(c));
            }
        }
        if exists|i: int| 0 <= i < n && stored(ids, map, (#[trigger] refs[i]) as u64) == Some(c) {
            let i = choose|i: int| 0 <= i < n && stored(ids, map, (#[trigger] refs[i]) as u64) == Some(c);
            if i < k {
                assert(stored(ids, map, refs[i] as u64) == Some(c));
                assert(front.contains(c));
                let j = choose|j: int| 0 <= j < front.len() && front[j] == c;
                assert(out[j] == c);
            } else {
                assert(out[front.len() as int] == c);
            }
        }
        if forall|i: int| 0 <= i < n ==> ids.has((#[trigger] refs[i]) as u64) {
            assert(ids.has(refs[n - 1] as u64));
            assert(stored(ids, map, refs[n - 1] as u64) is Some);
            assert(forall|i: int| 0 <= i < k ==> ids.has((#[trigger] refs[i]) as u64));
        }
    }
}

/// What is stored for an id stands in the eight bytes of its rank.
pub proof fn slots_by_rank(ids: crate::bitset::RankedBitSet, map: Seq<u8>, id: u64)
    ensures
        ids.has(id) ==> stored(ids, map, id) == Some(
            coord_of(
                map.subrange(8 * ids.rank_of(id) as int, 8 * ids.rank_of(id) as int + 8),
            ),
        ),
        !ids.has(id) ==> stored(ids, map, id) is None,
{
}

/// A store has eight bytes per node, and one byte where it has none.
pub proof fn stores_have_eight_bytes_a_node(slots: nat)
    ensures
        slots > 0 ==> store_len(slots) == 8 * slots,
        slots == 0 ==> store_len(slots) == 1,
{
}

} // verus!
