//! Decoding of the Timepix3 packet stream and per-shot clustering.
//!
//! The raw stream is a sequence of 8-byte little-endian packets.  Every time
//! in this module is an exact integer count of the detector's fine clock
//! unit, 25/4096 ns: one coarse TDC tick (25 ns) is 4096 fine units, one
//! coarse pixel tick (25/16 ns) is 256 fine units, and the detector clock
//! rollover period (26.8435456 s) is exactly 2^42 fine units.  This keeps
//! the whole decoder bit-exact, with no rounding anywhere.

use itertools::Itertools;
use vstd::prelude::*;
use vstd::arithmetic::div_mod::lemma_fundamental_div_mod;
use vstd::arithmetic::div_mod::lemma_mod_bound;
use vstd::bytes::spec_u64_from_le_bytes;
use vstd::bytes::u64_from_le_bytes;
use vstd::relations::sorted_by;
use vstd::relations::total_ordering;
use vstd::seq_lib::lemma_sorted_unique;
use vstd::slice::slice_subrange;
use crate::dbscan::Label;
use crate::dbscan::dataset_ok;
use crate::dbscan::dbscan;
use crate::dbscan::label_inv;
use crate::dbscan::labels_ok;
use crate::dbscan::point_ok;
use crate::dbscan::points_view;
use crate::dbscan::spec_dbscan;
use crate::utility::COORD_BOUND;
use crate::utility::dist_sq;
use crate::utility::dist_sq_prefix;

verus! {

/// The detector clock rollover period in fine units: 26.8435456 s = 2^42.
pub const CLOCK_PERIOD_UNITS: i64 = 0x400_0000_0000;

/// One decoded pixel-activation event.
///
/// `tdc`, `global_time` and `tof` are in fine clock units (25/4096 ns);
/// `tot_ns` is in nanoseconds; `x` and `y` are pixel coordinates.
#[derive(Debug, Copy, Clone, PartialEq, Eq, Structural)]
pub struct TPXPoint {
    pub shot_count: u64,
    pub tdc: u64,
    pub global_time: u64,
    pub tof: i64,
    pub x: u64,
    pub y: u64,
    pub tot_ns: u64,
}

/// Decoding failure: the raw buffer cannot hold a whole number of packets.
#[derive(Debug, Copy, Clone, PartialEq, Eq, Structural)]
pub enum DecodeError {
    MisalignedLength,
}

/// A packet whose first four bytes are the ASCII header signature `TPX3`
/// (little-endian, so they are the low 32 bits).
pub open spec fn is_header_packet(p: u64) -> bool {
    p & 0xFFFF_FFFF == 0x3358_5054
}

/// A TDC trigger packet: top nibble 0x6 (headers are recognized first).
pub open spec fn is_tdc_packet(p: u64) -> bool {
    !is_header_packet(p) && p >> 60 == 0x6
}

/// A pixel-event packet: top nibble 0xb (headers are recognized first).
pub open spec fn is_pixel_packet(p: u64) -> bool {
    !is_header_packet(p) && p >> 60 == 0xb
}

/// Coarse TDC time field: 32 bits at offset 12, in 25 ns ticks.
pub open spec fn tdc_coarse(p: u64) -> u64 {
    (p >> 12) & 0xFFFF_FFFF
}

/// TDC fine-time correction in fine units: a 4-bit hardware counter,
/// decremented by one with wraparound, left-shifted and divided, folded
/// with low bits of the raw packet.
pub open spec fn tdc_fine(p: u64) -> u64 {
    let v = (p >> 5) & 0xF;
    let shifted = if v == 0 { 0xFFFF_FFFF_FFFF_FE00u64 } else { (((v - 1) as u64) << 9) as u64 };
    let finetime = shifted / 12;
    (p & 0xE00) | (finetime & 0x1FF)
}

/// The TDC trigger time in fine units.
pub open spec fn tdc_time_units(p: u64) -> int {
    tdc_coarse(p) * 4096 + tdc_fine(p)
}

/// Coarse time of arrival of a pixel event, in coarse pixel ticks.
pub open spec fn pixel_coarse_toa(p: u64) -> u64 {
    (((p >> 30) & 0x3FFF) << 4) | (!((p >> 16) & 0xF) & 0xF)
}

/// The 16-bit extended coarse counter of a pixel event.
pub open spec fn pixel_spidr(p: u64) -> u64 {
    p & 0xFFFF
}

/// Raw detector clock time of a pixel activation, in fine units.
pub open spec fn pixel_global_units(p: u64) -> int {
    pixel_spidr(p) * 0x400_0000 + pixel_coarse_toa(p) * 256
}

/// Sub-pixel address bits.
pub open spec fn pixel_pix(p: u64) -> u64 {
    (p & 0x0000_7000_0000_0000) >> 44
}

/// Pixel column.
pub open spec fn pixel_x(p: u64) -> int {
    ((p & 0x0FE0_0000_0000_0000) >> 52) + pixel_pix(p) / 4
}

/// Pixel row.
pub open spec fn pixel_y(p: u64) -> int {
    ((p & 0x001F_8000_0000_0000) >> 45) + (pixel_pix(p) & 0x3)
}

/// Time over threshold in nanoseconds: a 10-bit field in 25 ns ticks.
pub open spec fn pixel_tot_ns(p: u64) -> int {
    ((p >> 20) & 0x3FF) * 25
}

/// Clock-rollover correction: a negative raw time of flight is advanced by
/// `floor(|t| / period)` whole clock periods; other values are unchanged.
pub open spec fn wrap_tof(t: int) -> int {
    if t < 0 {
        t + ((-t) / (CLOCK_PERIOD_UNITS as int)) * (CLOCK_PERIOD_UNITS as int)
    } else {
        t
    }
}

/// Time of flight of a pixel event in fine units, relative to the most
/// recent TDC trigger, rollover-corrected.
pub open spec fn pixel_tof_units(p: u64, tdc: int) -> int {
    wrap_tof(pixel_global_units(p) - tdc)
}

/// The event decoded from pixel packet `p` under TDC time `tdc`, placed in
/// shot number `shot`.
pub open spec fn pixel_event(p: u64, tdc: int, shot: int) -> TPXPoint {
    TPXPoint {
        shot_count: shot as u64,
        tdc: tdc as u64,
        global_time: pixel_global_units(p) as u64,
        tof: pixel_tof_units(p, tdc) as i64,
        x: pixel_x(p) as u64,
        y: pixel_y(p) as u64,
        tot_ns: pixel_tot_ns(p) as u64,
    }
}

/// Decoder state: the shots opened so far, the running TDC time in fine
/// units, and whether a TDC trigger is pending a first pixel event.
pub ghost struct DecodeState {
    pub shots: Seq<Seq<TPXPoint>>,
    pub tdc: int,
    pub new_tdc: bool,
}

/// Before any packet: no shots, TDC time zero, and the pending flag set,
/// so pixel events before any TDC trigger open an implicit first shot.
pub open spec fn initial_state() -> DecodeState {
    DecodeState { shots: Seq::empty(), tdc: 0, new_tdc: true }
}

/// How one packet transforms the decoder state.
pub open spec fn decode_step(st: DecodeState, p: u64) -> DecodeState {
    if is_header_packet(p) {
        st
    } else if is_tdc_packet(p) {
        DecodeState { shots: st.shots, tdc: tdc_time_units(p), new_tdc: true }
    } else if is_pixel_packet(p) {
        if st.new_tdc || st.shots.len() == 0 {
            let ev = pixel_event(p, st.tdc, st.shots.len() as int);
            DecodeState { shots: st.shots.push(seq![ev]), tdc: st.tdc, new_tdc: false }
        } else {
            let last = st.shots.len() - 1;
            let ev = pixel_event(p, st.tdc, last as int);
            DecodeState {
                shots: st.shots.update(last as int, st.shots.last().push(ev)),
                tdc: st.tdc,
                new_tdc: st.new_tdc,
            }
        }
    } else {
        st
    }
}

/// The decoder state after a whole packet sequence.
pub open spec fn decode_fold(ps: Seq<u64>) -> DecodeState
    decreases ps.len(),
{
    if ps.len() == 0 {
        initial_state()
    } else {
        decode_step(decode_fold(ps.drop_last()), ps.last())
    }
}

/// The byte buffer read as consecutive little-endian 64-bit packets.
pub open spec fn packets_of(bytes: Seq<u8>) -> Seq<u64> {
    Seq::new(bytes.len() / 8, |k: int| spec_u64_from_le_bytes(bytes.subrange(8 * k, 8 * k + 8)))
}

/// The per-shot event sequences decoded from a byte buffer.
pub open spec fn decoded_shots(bytes: Seq<u8>) -> Seq<Seq<TPXPoint>> {
    decode_fold(packets_of(bytes)).shots
}

/// The shot list as a sequence of event sequences.
pub open spec fn shots_view(s: Seq<Vec<TPXPoint>>) -> Seq<Seq<TPXPoint>> {
    s.map_values(|v: Vec<TPXPoint>| v@)
}

/// Folding one more packet is one more step.
pub proof fn lemma_decode_fold_snoc(ps: Seq<u64>, p: u64)
    ensures
        decode_fold(ps.push(p)) == decode_step(decode_fold(ps), p),
{
    assert(ps.push(p).drop_last() =~= ps);
    assert(ps.push(p).last() == p);
}

proof fn lemma_pixel_field_bounds(p: u64)
    ensures
        0 <= pixel_x(p) <= 0xFF,
        0 <= pixel_y(p) <= 0xFF,
        0 <= pixel_tot_ns(p) <= 25575,
{
    assert((p & 0x0FE0_0000_0000_0000) >> 52 <= 0xFE) by (bit_vector);
    assert((p & 0x001F_8000_0000_0000) >> 45 <= 0xFC) by (bit_vector);
    assert((p & 0x0000_7000_0000_0000) >> 44 <= 0x7) by (bit_vector);
    assert(((p & 0x0000_7000_0000_0000) >> 44) & 0x3 <= 0x3) by (bit_vector);
    assert((p >> 20) & 0x3FF <= 0x3FF) by (bit_vector);
}

/// A rollover-corrected negative time of flight lands in `(-period, 0]`,
/// advanced by exactly `floor(|t| / period)` whole periods.
pub proof fn lemma_wrap_tof_range(t: int)
    requires
        t < 0,
    ensures
        -(CLOCK_PERIOD_UNITS as int) < wrap_tof(t) <= 0,
        wrap_tof(t) == t + ((-t) / (CLOCK_PERIOD_UNITS as int)) * (CLOCK_PERIOD_UNITS as int),
{
    let period = CLOCK_PERIOD_UNITS as int;
    lemma_fundamental_div_mod(-t, period);
    lemma_mod_bound(-t, period);
    assert(wrap_tof(t) == -((-t) % period)) by {
        assert(-t == period * ((-t) / period) + (-t) % period);
        assert(period * ((-t) / period) == ((-t) / period) * period) by (nonlinear_arith);
    }
}

/// Decode a raw byte buffer into per-shot event sequences.
///
/// Succeeds exactly when the buffer length is a multiple of 8, and then
/// returns exactly the shots of the packet-stream model `decoded_shots`.
pub fn parse_tpx_data(raw: &Vec<u8>) -> (result: Result<Vec<Vec<TPXPoint>>, DecodeError>)
    ensures
        match result {
            Ok(shots) => raw@.len() % 8 == 0 && shots_view(shots@) == decoded_shots(raw@),
            Err(e) => raw@.len() % 8 != 0 && e == DecodeError::MisalignedLength,
        },
{
    let len = raw.len();
    if len % 8 != 0 {
        return Err(DecodeError::MisalignedLength);
    }
    let ghost ps = packets_of(raw@);
    let n_packets = len / 8;
    let mut shots: Vec<Vec<TPXPoint>> = Vec::new();
    let mut tdc: u64 = 0;
    let mut new_tdc: bool = true;
    let mut k: usize = 0;
    proof {
        assert(ps.take(0) =~= Seq::<u64>::empty());
        assert(shots_view(shots@) =~= Seq::<Seq<TPXPoint>>::empty());
    }
    while k < n_packets
        invariant
            raw@.len() == len,
            len % 8 == 0,
            n_packets == len / 8,
            ps == packets_of(raw@),
            k <= n_packets,
            tdc < 0x1000_0000_1000,
            decode_fold(ps.take(k as int)).shots == shots_view(shots@),
            decode_fold(ps.take(k as int)).tdc == tdc as int,
            decode_fold(ps.take(k as int)).new_tdc == new_tdc,
            !new_tdc ==> shots@.len() > 0,
        decreases n_packets - k,
    {
        let ghost st = decode_fold(ps.take(k as int));
        let off = 8 * k;
        let packet = u64_from_le_bytes(slice_subrange(raw.as_slice(), off, off + 8));
        proof {
            assert(ps.take(k as int + 1).drop_last() =~= ps.take(k as int));
            assert(ps.take(k as int + 1).last() == ps[k as int]);
            assert(ps[k as int] == spec_u64_from_le_bytes(raw@.subrange(8 * (k as int), 8 * (k as int) + 8)));
            assert(packet == ps[k as int]);
        }

        if packet & 0xFFFF_FFFF == 0x3358_5054 {
            // header packet: no state change
            proof {
                assert(is_header_packet(packet));
            }
        } else if packet >> 60 == 0x6 {
            let coarse = (packet >> 12) & 0xFFFF_FFFF;
            let v = (packet >> 5) & 0xF;
            let shifted: u64 = if v == 0 { 0xFFFF_FFFF_FFFF_FE00 } else { (v - 1) << 9 };
            let finetime = shifted / 12;
            let ft = (packet & 0xE00) | (finetime & 0x1FF);
            proof {
                assert((packet >> 12) & 0xFFFF_FFFF <= 0xFFFF_FFFF) by (bit_vector);
                assert((packet >> 5) & 0xF <= 0xF) by (bit_vector);
                assert((packet & 0xE00) | (finetime & 0x1FF) <= 0xFFF) by (bit_vector);
                assert(ft == tdc_fine(packet));
            }
            tdc = coarse * 4096 + ft;
            new_tdc = true;
            proof {
                assert(tdc as int == tdc_time_units(packet));
            }
        } else if packet >> 60 == 0xb {
            let coarse_toa = (((packet >> 30) & 0x3FFF) << 4) | (!((packet >> 16) & 0xF) & 0xF);
            let spidr = packet & 0xFFFF;
            proof {
                assert(packet & 0xFFFF <= 0xFFFF) by (bit_vector);
                assert((((packet >> 30) & 0x3FFF) << 4) | (!((packet >> 16) & 0xF) & 0xF) <= 0x3FFFF)
                    by (bit_vector);
            }
            let global_units: u64 = spidr * 0x400_0000 + coarse_toa * 256;
            let mut tof: i64 = global_units as i64 - tdc as i64;
            if tof < 0 {
                proof {
                    lemma_wrap_tof_range(global_units as int - tdc as int);
                }
                let wraps = ((-tof) as u64) / (CLOCK_PERIOD_UNITS as u64);
                tof = tof + (wraps * (CLOCK_PERIOD_UNITS as u64)) as i64;
            }
            proof {
                assert((packet & 0x0FE0_0000_0000_0000) >> 52 <= 0xFE) by (bit_vector);
                assert((packet & 0x001F_8000_0000_0000) >> 45 <= 0xFC) by (bit_vector);
                assert((packet & 0x0000_7000_0000_0000) >> 44 <= 0x7) by (bit_vector);
                assert((packet >> 20) & 0x3FF <= 0x3FF) by (bit_vector);
                assert(((packet & 0x0000_7000_0000_0000) >> 44) & 0x3 <= 0x3) by (bit_vector);
            }
            let pix = (packet & 0x0000_7000_0000_0000) >> 44;
            let x = ((packet & 0x0FE0_0000_0000_0000) >> 52) + pix / 4;
            let y = ((packet & 0x001F_8000_0000_0000) >> 45) + (pix & 0x3);
            let tot_ns = ((packet >> 20) & 0x3FF) * 25;
            proof {
                assert(x as int == pixel_x(packet));
                assert(y as int == pixel_y(packet));
                assert(tot_ns as int == pixel_tot_ns(packet));
                assert(tof as int == pixel_tof_units(packet, tdc as int));
            }
            if new_tdc {
                let ev = TPXPoint {
                    shot_count: shots.len() as u64,
                    tdc,
                    global_time: global_units,
                    tof,
                    x,
                    y,
                    tot_ns,
                };
                proof {
                    assert(ev == pixel_event(packet, st.tdc, st.shots.len() as int));
                }
                let mut cur: Vec<TPXPoint> = Vec::new();
                cur.push(ev);
                shots.push(cur);
                new_tdc = false;
                proof {
                    assert(shots_view(shots@) =~= st.shots.push(seq![ev]));
                }
            } else {
                let last = shots.len() - 1;
                let ev = TPXPoint {
                    shot_count: last as u64,
                    tdc,
                    global_time: global_units,
                    tof,
                    x,
                    y,
                    tot_ns,
                };
                proof {
                    assert(ev == pixel_event(packet, st.tdc, st.shots.len() as int - 1));
                }
                let mut cur: Vec<TPXPoint> = match shots.pop() {
                    Some(c) => c,
                    None => Vec::new(),
                };
                cur.push(ev);
                shots.push(cur);
                proof {
                    assert(shots_view(shots@) =~= st.shots.update(
                        st.shots.len() - 1,
                        st.shots.last().push(ev),
                    ));
                }
            }
        } else {
            // unrecognized packet type: ignored for forward compatibility
        }
        k = k + 1;
    }
    proof {
        assert(ps.take(n_packets as int) =~= ps);
    }
    Ok(shots)
}

/// Total number of decoded events across all shots.
pub open spec fn total_events(shots: Seq<Seq<TPXPoint>>) -> int
    decreases shots.len(),
{
    if shots.len() == 0 {
        0
    } else {
        total_events(shots.drop_last()) + shots.last().len()
    }
}

/// Number of pixel-event packets in a packet sequence.
pub open spec fn count_pixel_packets(ps: Seq<u64>) -> int
    decreases ps.len(),
{
    if ps.len() == 0 {
        0
    } else {
        count_pixel_packets(ps.drop_last()) + if is_pixel_packet(ps.last()) { 1int } else { 0int }
    }
}

proof fn lemma_total_events_push(shots: Seq<Seq<TPXPoint>>, s: Seq<TPXPoint>)
    ensures
        total_events(shots.push(s)) == total_events(shots) + s.len(),
{
    assert(shots.push(s).drop_last() =~= shots);
    assert(shots.push(s).last() == s);
}

proof fn lemma_total_events_append_last(shots: Seq<Seq<TPXPoint>>, ev: TPXPoint)
    requires
        shots.len() > 0,
    ensures
        total_events(shots.update(shots.len() - 1, shots.last().push(ev)))
            == total_events(shots) + 1,
{
    let su = shots.update(shots.len() - 1, shots.last().push(ev));
    assert(su.drop_last() =~= shots.drop_last());
    assert(su.last() == shots.last().push(ev));
}

/// Decoding produces exactly one event per pixel-event packet: header, TDC
/// and unrecognized packets contribute none.
pub proof fn lemma_decode_event_count(ps: Seq<u64>)
    ensures
        total_events(decode_fold(ps).shots) == count_pixel_packets(ps),
    decreases ps.len(),
{
    if ps.len() > 0 {
        lemma_decode_event_count(ps.drop_last());
        let st = decode_fold(ps.drop_last());
        let p = ps.last();
        if is_pixel_packet(p) {
            if st.new_tdc || st.shots.len() == 0 {
                let ev = pixel_event(p, st.tdc, st.shots.len() as int);
                lemma_total_events_push(st.shots, seq![ev]);
            } else {
                let ev = pixel_event(p, st.tdc, st.shots.len() as int - 1);
                lemma_total_events_append_last(st.shots, ev);
            }
        }
    }
}

/// For every valid byte buffer: decoding it produces exactly as many
/// events as the buffer has pixel-event packets.
pub proof fn lemma_decoded_event_count_bytes(bytes: Seq<u8>)
    ensures
        total_events(decoded_shots(bytes)) == count_pixel_packets(packets_of(bytes)),
{
    lemma_decode_event_count(packets_of(bytes));
}

/// A header packet produces no event and changes nothing: not the shot
/// list, not the TDC time, not the pending-trigger flag.
pub proof fn lemma_header_is_skipped(st: DecodeState, p: u64)
    requires
        is_header_packet(p),
    ensures
        decode_step(st, p) == st,
{
}

/// Appending a header packet to any packet stream leaves the decoded
/// output untouched.
pub proof fn lemma_header_packet_is_no_op(ps: Seq<u64>, p: u64)
    requires
        is_header_packet(p),
    ensures
        decode_fold(ps.push(p)) == decode_fold(ps),
{
    lemma_decode_fold_snoc(ps, p);
}

/// A TDC packet immediately followed by a pixel packet opens exactly one
/// new shot, and clears the pending flag.
pub proof fn lemma_tdc_then_pixel_opens_shot(st: DecodeState, pt: u64, pp: u64)
    requires
        is_tdc_packet(pt),
        is_pixel_packet(pp),
    ensures
        decode_step(decode_step(st, pt), pp).shots.len() == st.shots.len() + 1,
        !decode_step(decode_step(st, pt), pp).new_tdc,
{
}

/// Further pixel packets before the next TDC trigger join the current shot
/// instead of opening another one.
pub proof fn lemma_pixel_extends_current_shot(st: DecodeState, pp: u64)
    requires
        is_pixel_packet(pp),
        !st.new_tdc,
        st.shots.len() > 0,
    ensures
        decode_step(st, pp).shots.len() == st.shots.len(),
        !decode_step(st, pp).new_tdc,
{
}

/// A raw time of flight exactly one clock period below zero is wrapped
/// forward by exactly one period, landing at zero.  (A raw value strictly
/// inside `(-period, 0)` is advanced by zero whole periods, so it stays
/// where it is: see `lemma_wrap_tof_range` for the general statement.)
pub proof fn lemma_wrap_one_period_below_zero(t: int)
    requires
        t == -(CLOCK_PERIOD_UNITS as int),
    ensures
        wrap_tof(t) == t + 1 * (CLOCK_PERIOD_UNITS as int),
        wrap_tof(t) == 0,
{
    let period = CLOCK_PERIOD_UNITS as int;
    lemma_wrap_tof_range(t);
    lemma_fundamental_div_mod(-t, period);
    lemma_mod_bound(-t, period);
}

/// A non-negative raw time of flight is not corrected.
pub proof fn lemma_wrap_tof_nonnegative(t: int)
    requires
        t >= 0,
    ensures
        wrap_tof(t) == t,
{
}

/// Squared clustering radius after rescaling (see `cluster`): 81920^2.
pub const CLUSTER_EPS_SQ: u128 = 0x1_9000_0000;

/// Time-of-flight gap, in fine units, that separates two windows.
pub const CLUSTER_TIME_GAP: i64 = 81920;

/// Factor by which pixel coordinates are scaled so that the clustering
/// radius of 2 pixel units becomes 81920 on every axis.
pub const CLUSTER_XY_SCALE: i64 = 40960;

/// Minimum neighborhood size for the per-shot clustering.
pub const CLUSTER_MIN_POINTS: usize = 2;

/// Index-tagged, rescaled points with in-range coordinates and original
/// indices below `n`.
pub open spec fn tuples_ok(s: Seq<(usize, i64, i64, i64)>, n: int) -> bool {
    forall|k: int| 0 <= k < s.len() ==> {
        let t = #[trigger] s[k];
        &&& t.0 < n
        &&& -COORD_BOUND <= t.1 <= COORD_BOUND
        &&& -COORD_BOUND <= t.2 <= COORD_BOUND
        &&& -COORD_BOUND <= t.3 <= COORD_BOUND
    }
}

/// Relies on itertools::Itertools::sorted_by (a stable sort, built on
/// Vec::sort_by): the result holds the same tuples, reordered so that the
/// second component is nondecreasing; ties keep their input order, which
/// under the precondition is increasing first-component order, so the
/// output order is exactly lexicographic by (second, first) component.
#[verifier::external_body]
fn sort_by_tof(points: Vec<(usize, i64, i64, i64)>) -> (r: Vec<(usize, i64, i64, i64)>)
    requires
        forall|a: int, b: int| 0 <= a < b < points@.len() ==> points@[a].0 < points@[b].0,
    ensures
        r@.len() == points@.len(),
        r@.to_multiset() == points@.to_multiset(),
        forall|k: int| 0 <= k < r@.len() ==> points@.contains(#[trigger] r@[k]),
        forall|a: int, b: int| 0 <= a < b < r@.len() ==>
            (r@[a].1 < r@[b].1 || (r@[a].1 == r@[b].1 && r@[a].0 < r@[b].0)),
        forall|a: int, b: int| 0 <= a < b < r@.len() ==> r@[a].0 != r@[b].0,
{
    points.into_iter().sorted_by(|a, b| a.1.cmp(&b.1)).collect()
}


/// The index-tagged, rescaled view of a shot: entry `i` is
/// `(i, tof, 40960 * x, 40960 * y)`.
pub open spec fn rescaled_points(shot: Seq<TPXPoint>) -> Seq<(usize, i64, i64, i64)> {
    Seq::new(shot.len(), |i: int| (
        i as usize,
        shot[i].tof,
        (shot[i].x * 40960) as i64,
        (shot[i].y * 40960) as i64,
    ))
}

/// `srt` is `src` reordered lexicographically by (time of flight, index):
/// the unique stable sort of `src` by time of flight when the indices of
/// `src` are strictly increasing.
pub open spec fn sorted_arrangement(src: Seq<(usize, i64, i64, i64)>, srt: Seq<(usize, i64, i64, i64)>) -> bool {
    &&& srt.len() == src.len()
    &&& srt.to_multiset() == src.to_multiset()
    &&& forall|k: int| 0 <= k < srt.len() ==> src.contains(#[trigger] srt[k])
    &&& forall|a: int, b: int| 0 <= a < b < srt.len() ==>
        (srt[a].1 < srt[b].1 || (srt[a].1 == srt[b].1 && srt[a].0 < srt[b].0))
    &&& forall|a: int, b: int| 0 <= a < b < srt.len() ==> srt[a].0 != srt[b].0
}

/// Nonstrict lexicographic order on the rescaled tuples.
pub open spec fn tuple_leq(a: (usize, i64, i64, i64), b: (usize, i64, i64, i64)) -> bool {
    ||| a.1 < b.1
    ||| (a.1 == b.1 && a.0 < b.0)
    ||| (a.1 == b.1 && a.0 == b.0 && a.2 < b.2)
    ||| (a.1 == b.1 && a.0 == b.0 && a.2 == b.2 && a.3 <= b.3)
}

/// A tuple sequence has at most one sorted arrangement: sorting is a
/// mathematical function of the input.
pub proof fn lemma_sorted_arrangement_unique(src: Seq<(usize, i64, i64, i64)>, s1: Seq<(usize, i64, i64, i64)>, s2: Seq<(usize, i64, i64, i64)>)
    requires
        sorted_arrangement(src, s1),
        sorted_arrangement(src, s2),
    ensures
        s1 == s2,
{
    let leq = |a: (usize, i64, i64, i64), b: (usize, i64, i64, i64)| tuple_leq(a, b);
    assert(total_ordering(leq)) by {
        assert forall|x: (usize, i64, i64, i64)| #[trigger] leq(x, x) by {}
        assert forall|x: (usize, i64, i64, i64), y: (usize, i64, i64, i64)|
            #[trigger] leq(x, y) && #[trigger] leq(y, x) implies x == y by {}
        assert forall|x: (usize, i64, i64, i64), y: (usize, i64, i64, i64), z: (usize, i64, i64, i64)|
            #[trigger] leq(x, y) && #[trigger] leq(y, z) implies leq(x, z) by {}
        assert forall|x: (usize, i64, i64, i64), y: (usize, i64, i64, i64)|
            #[trigger] leq(x, y) || #[trigger] leq(y, x) by {}
    }
    assert(sorted_by(s1, leq)) by {
        assert forall|a: int, b: int| 0 <= a < b < s1.len() implies #[trigger] leq(s1[a], s1[b]) by {
            assert(s1[a].1 < s1[b].1 || (s1[a].1 == s1[b].1 && s1[a].0 < s1[b].0));
        }
    }
    assert(sorted_by(s2, leq)) by {
        assert forall|a: int, b: int| 0 <= a < b < s2.len() implies #[trigger] leq(s2[a], s2[b]) by {
            assert(s2[a].1 < s2[b].1 || (s2[a].1 == s2[b].1 && s2[a].0 < s2[b].0));
        }
    }
    lemma_sorted_unique(s1, s2, leq);
    assert(s1 =~= s2);
}

/// Clustering one shot twice gives identical labels: the sorted
/// arrangement of the shot's rescaled points is unique, so every run
/// computes the same mathematical labelling.
pub proof fn lemma_cluster_deterministic(shot: Seq<TPXPoint>, s1: Seq<(usize, i64, i64, i64)>, s2: Seq<(usize, i64, i64, i64)>, l1: Seq<i32>, l2: Seq<i32>)
    requires
        sorted_arrangement(rescaled_points(shot), s1),
        sorted_arrangement(rescaled_points(shot), s2),
        l1 == cluster_given_order(shot, s1),
        l2 == cluster_given_order(shot, s2),
    ensures
        l1 == l2,
{
    lemma_sorted_arrangement_unique(rescaled_points(shot), s1, s2);
}

/// Where the window that is open at position `end - 1` closes: the first
/// position whose time-of-flight gap from its predecessor exceeds the
/// radius, or the end of the shot.
pub open spec fn window_end(srt: Seq<(usize, i64, i64, i64)>, end: int) -> int
    decreases srt.len() - end,
{
    if 1 <= end < srt.len() && srt[end].1 - srt[end - 1].1 <= CLUSTER_TIME_GAP {
        window_end(srt, end + 1)
    } else {
        end
    }
}

pub proof fn lemma_window_end_bounds(srt: Seq<(usize, i64, i64, i64)>, end: int)
    requires
        1 <= end <= srt.len(),
    ensures
        end <= window_end(srt, end) <= srt.len(),
    decreases srt.len() - end,
{
    if end < srt.len() && srt[end].1 - srt[end - 1].1 <= CLUSTER_TIME_GAP {
        lemma_window_end_bounds(srt, end + 1);
    }
}

/// Why clustering windows independently is sound: two points separated by
/// a window boundary (a time-of-flight gap above the radius) are farther
/// apart than the clustering radius on the time axis alone, so they can
/// never be neighbors, whatever their pixel coordinates.
pub proof fn lemma_windows_are_separated(srt: Seq<(usize, i64, i64, i64)>, k1: int, b: int, k2: int)
    requires
        forall|a: int, c: int| 0 <= a < c < srt.len() ==> srt[a].1 <= srt[c].1,
        0 <= k1 < b <= k2 < srt.len(),
        srt[b].1 - srt[b - 1].1 > CLUSTER_TIME_GAP,
    ensures
        dist_sq(
            seq![srt[k1].1, srt[k1].2, srt[k1].3],
            seq![srt[k2].1, srt[k2].2, srt[k2].3],
        ) > CLUSTER_EPS_SQ as int,
{
    let p1 = seq![srt[k1].1, srt[k1].2, srt[k1].3];
    let p2 = seq![srt[k2].1, srt[k2].2, srt[k2].3];
    let dt = p1[0] - p2[0];
    let dx = p1[1] - p2[1];
    let dy = p1[2] - p2[2];
    assert(srt[k1].1 <= srt[b - 1].1);
    assert(srt[b].1 <= srt[k2].1);
    assert(dt < -(CLUSTER_TIME_GAP as int));
    assert(dist_sq(p1, p2) == dt * dt + dx * dx + dy * dy) by {
        assert(dist_sq_prefix(p1, p2, 3) == dist_sq_prefix(p1, p2, 2) + dy * dy);
        assert(dist_sq_prefix(p1, p2, 2) == dist_sq_prefix(p1, p2, 1) + dx * dx);
        assert(dist_sq_prefix(p1, p2, 0) == 0);
        assert(dist_sq_prefix(p1, p2, 1) == dt * dt);
    }
    assert(dt * dt > 0x1_9000_0000) by (nonlinear_arith)
        requires dt < -81920;
    assert(dx * dx >= 0 && dy * dy >= 0) by (nonlinear_arith);
}

/// The coordinate vectors handed to DBSCAN for one window.
pub open spec fn window_points(srt: Seq<(usize, i64, i64, i64)>, start: int, end: int) -> Seq<Seq<i64>> {
    Seq::new((end - start) as nat, |m: int| seq![srt[start + m].1, srt[start + m].2, srt[start + m].3])
}

/// A window-local label translated to a per-shot label: cluster ids are
/// offset by the running counter, noise becomes -1.
pub open spec fn merge_one(l: Label, counter: int) -> int {
    match l {
        Label::Core(g) => g + counter,
        Label::Edge(g) => g + counter,
        Label::Noise => -1,
        Label::Unchecked => -1,
    }
}

/// Write window `wl`'s translated labels (from offset `j` on) into the
/// label array at the events' original indices.
pub open spec fn scatter(labels: Seq<i32>, srt: Seq<(usize, i64, i64, i64)>, wl: Seq<Label>, start: int, j: int, counter: int) -> Seq<i32>
    decreases wl.len() - j,
{
    if j < 0 || j >= wl.len() {
        labels
    } else {
        let idx = srt[start + j].0 as int;
        let l2 = if 0 <= idx < labels.len() {
            labels.update(idx, merge_one(wl[j], counter) as i32)
        } else {
            labels
        };
        scatter(l2, srt, wl, start, j + 1, counter)
    }
}

/// The largest translated label of window `wl` from offset `j` on,
/// accumulated over `acc` (noise counts as -1).
pub open spec fn merge_max(wl: Seq<Label>, counter: int, j: int, acc: int) -> int
    decreases wl.len() - j,
{
    if j < 0 || j >= wl.len() {
        acc
    } else {
        let v = merge_one(wl[j], counter);
        merge_max(wl, counter, j + 1, if v > acc { v } else { acc })
    }
}

/// The label array after clustering window `srt[start..end]` and writing
/// its translated labels at the events' original indices.
pub open spec fn window_scatter(labels: Seq<i32>, srt: Seq<(usize, i64, i64, i64)>, start: int, end: int, counter: int) -> Seq<i32> {
    scatter(labels, srt,
        spec_dbscan(window_points(srt, start, end), CLUSTER_EPS_SQ, CLUSTER_MIN_POINTS),
        start, 0, counter)
}

/// The id counter after window `srt[start..end]`: one past the window's
/// largest id, or unchanged for a window of pure noise.
pub open spec fn next_counter(srt: Seq<(usize, i64, i64, i64)>, start: int, end: int, counter: int) -> int {
    let m = merge_max(
        spec_dbscan(window_points(srt, start, end), CLUSTER_EPS_SQ, CLUSTER_MIN_POINTS),
        counter, 0, -1);
    if m >= 0 { m + 1 } else { counter }
}

/// The whole per-shot pipeline over the sorted arrangement, window by
/// window: cluster a window with DBSCAN, scatter its labels back to input
/// order, and advance the id counter past the window's largest id (a
/// window of pure noise leaves the counter alone).
pub open spec fn cluster_windows(srt: Seq<(usize, i64, i64, i64)>, labels: Seq<i32>, start: int, counter: int) -> Seq<i32>
    decreases srt.len() - start,
        via cluster_windows_decreases
{
    if start < 0 || start >= srt.len() {
        labels
    } else {
        let end = window_end(srt, start + 1);
        cluster_windows(srt, window_scatter(labels, srt, start, end, counter), end,
            next_counter(srt, start, end, counter))
    }
}

#[via_fn]
proof fn cluster_windows_decreases(srt: Seq<(usize, i64, i64, i64)>, labels: Seq<i32>, start: int, counter: int) {
    if 0 <= start < srt.len() {
        lemma_window_end_bounds(srt, start + 1);
    }
}

/// The labelling of one shot: every run of `cluster` returns exactly this,
/// for the (unique) sorted arrangement of the shot's rescaled points.
pub open spec fn cluster_given_order(shot: Seq<TPXPoint>, srt: Seq<(usize, i64, i64, i64)>) -> Seq<i32> {
    cluster_windows(srt, Seq::new(shot.len(), |q: int| -1i32), 0, 0)
}

/// Cluster one window `sorted[start..end]` and write its merged labels
/// into `labels` at the events' original indices.  Returns the next free
/// cluster id: unchanged if the window is pure noise, else one past the
/// largest id handed out.
fn cluster_window(sorted: &Vec<(usize, i64, i64, i64)>, start: usize, end: usize, counter: i32, labels: &mut Vec<i32>) -> (new_counter: i32)
    requires
        start < end <= sorted@.len(),
        sorted@.len() <= 0x4000_0000,
        old(labels)@.len() == sorted@.len(),
        tuples_ok(sorted@, old(labels)@.len() as int),
        0 <= counter,
        counter as int <= start as int,
        forall|m: int| 0 <= m < old(labels)@.len() ==>
            -1 <= #[trigger] old(labels)@[m] && ((old(labels)@[m] as int) < (counter as int)),
    ensures
        final(labels)@.len() == old(labels)@.len(),
        counter <= new_counter,
        new_counter as int <= end as int,
        forall|m: int| 0 <= m < final(labels)@.len() ==>
            -1 <= #[trigger] final(labels)@[m] && ((final(labels)@[m] as int) < (new_counter as int)),
        final(labels)@ == window_scatter(old(labels)@, sorted@, start as int, end as int, counter as int),
        new_counter as int == next_counter(sorted@, start as int, end as int, counter as int),
{
    let n = labels.len();
    let mut window: Vec<Vec<i64>> = Vec::new();
    let mut k: usize = start;
    while k < end
        invariant
            start <= k <= end,
            end <= n,
            n == sorted@.len(),
            tuples_ok(sorted@, n as int),
            window@.len() == k - start,
            forall|m: int| 0 <= m < window@.len() ==> #[trigger] window@[m]@
                == seq![sorted@[start + m].1, sorted@[start + m].2, sorted@[start + m].3],
        decreases end - k,
    {
        let t = sorted[k];
        let mut p: Vec<i64> = Vec::new();
        p.push(t.1);
        p.push(t.2);
        p.push(t.3);
        proof {
            assert(p@ =~= seq![sorted@[k as int].1, sorted@[k as int].2, sorted@[k as int].3]);
        }
        window.push(p);
        k = k + 1;
    }

    let ghost wv = points_view(window);
    proof {
        assert forall|m: int| 0 <= m < wv.len() implies
            point_ok(#[trigger] wv[m]) && wv[m].len() == wv[0].len() by {
            assert(wv[m] == window@[m]@);
            assert(wv[0] == window@[0]@);
            assert(window@[m]@ == seq![sorted@[start + m].1, sorted@[start + m].2, sorted@[start + m].3]);
            assert(window@[0]@ == seq![sorted@[start + 0].1, sorted@[start + 0].2, sorted@[start + 0].3]);
            let t = sorted@[start + m];
            assert(-COORD_BOUND <= t.1 <= COORD_BOUND && -COORD_BOUND <= t.2 <= COORD_BOUND
                && -COORD_BOUND <= t.3 <= COORD_BOUND);
        }
        assert(dataset_ok(wv));
        assert(wv =~= window_points(sorted@, start as int, end as int));
    }
    let wlabels = dbscan(&window, CLUSTER_EPS_SQ, CLUSTER_MIN_POINTS);
    let ghost wl = spec_dbscan(window_points(sorted@, start as int, end as int), CLUSTER_EPS_SQ, CLUSTER_MIN_POINTS);
    proof {
        assert(wlabels@ == wl);
    }

    let mut maxlab: i32 = -1;
    let mut k: usize = start;
    while k < end
        invariant
            start <= k <= end,
            end <= n,
            n == sorted@.len(),
            n <= 0x4000_0000,
            tuples_ok(sorted@, n as int),
            labels@.len() == n,
            wlabels@.len() == end - start,
            labels_ok(wv, CLUSTER_EPS_SQ, CLUSTER_MIN_POINTS, wlabels@, (end - start) as int),
            wl == spec_dbscan(window_points(sorted@, start as int, end as int), CLUSTER_EPS_SQ, CLUSTER_MIN_POINTS),
            wlabels@ == wl,
            0 <= counter,
            counter as int <= start as int,
            -1 <= maxlab,
            (maxlab as int) < (counter as int) + (end - start),
            maxlab == -1 || maxlab >= counter,
            forall|m: int| 0 <= m < n ==> -1 <= #[trigger] labels@[m]
                && ((labels@[m] as int) < (counter as int) || labels@[m] <= maxlab),
            scatter(labels@, sorted@, wl, start as int, (k - start) as int, counter as int)
                == scatter(old(labels)@, sorted@, wl, start as int, 0, counter as int),
            merge_max(wl, counter as int, (k - start) as int, maxlab as int)
                == merge_max(wl, counter as int, 0, -1),
        decreases end - k,
    {
        let lab = wlabels[k - start];
        proof {
            assert(label_inv(wv, CLUSTER_EPS_SQ, CLUSTER_MIN_POINTS,
                wlabels@[(k - start) as int], (k - start) as int, (end - start) as int));
        }
        let v: i32 = match lab {
            Label::Core(g) => (g as i32) + counter,
            Label::Edge(g) => (g as i32) + counter,
            _ => -1,
        };
        let idx = sorted[k].0;
        let ghost pre = labels@;
        let ghost premax = maxlab as int;
        proof {
            assert(v as int == merge_one(wl[(k - start) as int], counter as int));
        }
        labels.set(idx, v);
        if v > maxlab {
            maxlab = v;
        }
        proof {
            assert(scatter(pre, sorted@, wl, start as int, (k - start) as int, counter as int)
                == scatter(labels@, sorted@, wl, start as int, (k - start) as int + 1, counter as int));
            assert(merge_max(wl, counter as int, (k - start) as int, premax)
                == merge_max(wl, counter as int, (k - start) as int + 1, maxlab as int));
        }
        k = k + 1;
    }
    proof {
        assert(scatter(labels@, sorted@, wl, start as int, (k - start) as int, counter as int)
            == labels@);
        assert(merge_max(wl, counter as int, (k - start) as int, maxlab as int)
            == maxlab as int);
    }
    if maxlab >= 0 {
        maxlab + 1
    } else {
        counter
    }
}

/// Assign a cluster label to each event of one shot, in the event order of
/// the input: entries `>= 0` name a cluster (ids unique within the shot,
/// starting at 0), `-1` is noise.
///
/// Times of flight are integers, so sorting never meets an incomparable
/// value, and every window holds at least one point by construction: the
/// sort-failure and empty-window failure states of the pipeline cannot
/// occur, and no error paths remain.
///
/// The time-of-flight axis is rescaled so that one clustering radius (2
/// pixel units) equals 81920 fine clock units; to stay in integers, the
/// pixel axes are scaled by 40960 and the radius becomes 81920 on every
/// axis.  The rescaled points are sorted by time of flight, split into
/// independent windows wherever consecutive sorted values differ by more
/// than the radius, clustered per window with DBSCAN, and the window-local
/// cluster ids are merged into one per-shot numbering (a window of pure
/// noise consumes no id); finally the labels are placed back in input
/// order through the retained original indices.
pub fn cluster(shot_data: &Vec<TPXPoint>) -> (labels: Vec<i32>)
    requires
        1 <= shot_data@.len() <= 0x4000_0000,
        forall|i: int| 0 <= i < shot_data@.len() ==> {
            let e = #[trigger] shot_data@[i];
            &&& -COORD_BOUND <= e.tof <= COORD_BOUND
            &&& e.x <= 0xFFFF
            &&& e.y <= 0xFFFF
        },
    ensures
        labels@.len() == shot_data@.len(),
        forall|i: int| 0 <= i < labels@.len() ==>
            -1 <= #[trigger] labels@[i] && (labels@[i] as int) < shot_data@.len(),
        exists|srt: Seq<(usize, i64, i64, i64)>|
            #[trigger] sorted_arrangement(rescaled_points(shot_data@), srt)
                && labels@ == cluster_given_order(shot_data@, srt),
{
    let n = shot_data.len();
    let mut pts: Vec<(usize, i64, i64, i64)> = Vec::new();
    let mut i: usize = 0;
    while i < n
        invariant
            n == shot_data@.len(),
            n <= 0x4000_0000,
            forall|m: int| 0 <= m < shot_data@.len() ==> {
                let e = #[trigger] shot_data@[m];
                &&& -COORD_BOUND <= e.tof <= COORD_BOUND
                &&& e.x <= 0xFFFF
                &&& e.y <= 0xFFFF
            },
            i <= n,
            pts@.len() == i,
            forall|k: int| 0 <= k < pts@.len() ==> (#[trigger] pts@[k]).0 == k,
            tuples_ok(pts@, n as int),
            forall|k: int| 0 <= k < pts@.len() ==> #[trigger] pts@[k] == rescaled_points(shot_data@)[k],
        decreases n - i,
    {
        let e = shot_data[i];
        pts.push((i, e.tof, (e.x as i64) * CLUSTER_XY_SCALE, (e.y as i64) * CLUSTER_XY_SCALE));
        proof {
            assert(pts@[i as int].0 == i);
            assert(pts@[i as int] == rescaled_points(shot_data@)[i as int]);
        }
        i = i + 1;
    }
    proof {
        assert(pts@ =~= rescaled_points(shot_data@));
    }

    proof {
        assert forall|a: int, b: int| 0 <= a < b < pts@.len() implies pts@[a].0 < pts@[b].0 by {
            assert(pts@[a].0 == a && pts@[b].0 == b);
        }
    }
    let sorted = sort_by_tof(pts);
    proof {
        assert forall|k: int| 0 <= k < sorted@.len() implies {
            let t = #[trigger] sorted@[k];
            &&& t.0 < n
            &&& -COORD_BOUND <= t.1 <= COORD_BOUND
            &&& -COORD_BOUND <= t.2 <= COORD_BOUND
            &&& -COORD_BOUND <= t.3 <= COORD_BOUND
        } by {
            assert(pts@.contains(sorted@[k]));
            let m = choose|m: int| 0 <= m < pts@.len() && pts@[m] == sorted@[k];
            assert(tuples_ok(pts@, n as int) && 0 <= m < pts@.len());
        }
        assert(tuples_ok(sorted@, n as int));
        assert(sorted_arrangement(rescaled_points(shot_data@), sorted@));
    }

    let mut labels: Vec<i32> = Vec::new();
    let mut i: usize = 0;
    while i < n
        invariant
            i <= n,
            labels@.len() == i,
            forall|m: int| 0 <= m < i ==> #[trigger] labels@[m] == -1i32,
        decreases n - i,
    {
        labels.push(-1);
        i = i + 1;
    }
    proof {
        assert(labels@ =~= Seq::new(shot_data@.len(), |q: int| -1i32));
    }

    let mut counter: i32 = 0;
    let mut start: usize = 0;
    while start < n
        invariant
            n == shot_data@.len(),
            1 <= n <= 0x4000_0000,
            sorted@.len() == n,
            tuples_ok(sorted@, n as int),
            start <= n,
            labels@.len() == n,
            0 <= counter,
            counter as int <= start as int,
            forall|m: int| 0 <= m < n ==>
                -1 <= #[trigger] labels@[m] && (labels@[m] as int) < (counter as int),
            cluster_windows(sorted@, labels@, start as int, counter as int)
                == cluster_given_order(shot_data@, sorted@),
        decreases n - start,
    {
        let mut end: usize = start + 1;
        while end < n && sorted[end].1 - sorted[end - 1].1 <= CLUSTER_TIME_GAP
            invariant
                start < end <= n,
                n == sorted@.len(),
                tuples_ok(sorted@, n as int),
                window_end(sorted@, end as int) == window_end(sorted@, start as int + 1),
            decreases n - end,
        {
            end = end + 1;
        }
        proof {
            assert(end as int == window_end(sorted@, start as int + 1));
        }

        let ghost labs0 = labels@;
        let ghost c0 = counter as int;
        counter = cluster_window(&sorted, start, end, counter, &mut labels);
        proof {
            assert(cluster_windows(sorted@, labs0, start as int, c0)
                == cluster_windows(sorted@, labels@, end as int, counter as int));
        }
        start = end;
    }
    proof {
        assert(cluster_windows(sorted@, labels@, start as int, counter as int) == labels@);
        assert(sorted_arrangement(rescaled_points(shot_data@), sorted@)
            && labels@ == cluster_given_order(shot_data@, sorted@));
    }
    labels
}

} // verus!
