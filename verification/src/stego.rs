//! Hiding and revealing: the message's bits, followed by a fixed six-byte
//! marker, are written into the least-significant bits of the grid's channel
//! values, and read back until the marker shows up in the assembled bytes.

use vstd::prelude::*;
use vstd::arithmetic::div_mod::lemma_div_is_ordered;
use vstd::arithmetic::div_mod::lemma_fundamental_div_mod_converse;
use crate::bit_iter::bits_of_bytes;
use crate::bit_iter::byte_bit;
use crate::bit_iter::lemma_byte_bits_eq;
use crate::bit_iter::lemma_lsb_with_lsb;
use crate::bit_iter::lemma_pack_byte_bits;
use crate::bit_iter::lemma_with_lsb_high_bits;
use crate::bit_iter::lsb;
use crate::bit_iter::pack_byte;
use crate::bit_iter::with_lsb;
use crate::grid::PixelGrid;

verus! {

/// How many bytes the marker holds.
pub const MARKER_LEN: usize = 6;

/// The marker written after the last message byte, so that revealing knows
/// where to stop. It mixes maximal and minimal byte values to make a chance
/// match against ordinary data unlikely.
pub open spec fn marker_seq() -> Seq<u8> {
    seq![255u8, 255u8, 0u8, 0u8, 255u8, 0u8]
}

/// The marker byte at position `i`.
pub fn marker_byte(i: usize) -> (r: u8)
    requires
        i < 6,
    ensures
        r == marker_seq()[i as int],
{
    if i == 0 {
        255
    } else if i == 1 {
        255
    } else if i == 2 {
        0
    } else if i == 3 {
        0
    } else if i == 4 {
        255
    } else {
        0
    }
}

/// Every bit that hiding tries to write: the message's bits followed by the
/// marker's bits, least-significant bit of each byte first.
pub open spec fn stream_bits(message: Seq<u8>) -> Seq<bool> {
    bits_of_bytes(message + marker_seq())
}

/// The channel values after a message is hidden: channel `i` carries bit `i`
/// of the stream in its least-significant bit; channels past the end of the
/// stream keep their old value; bits past the grid's capacity are silently
/// dropped.
pub open spec fn hidden_channels(channels: Seq<u8>, message: Seq<u8>) -> Seq<u8> {
    Seq::new(
        channels.len(),
        |i: int|
            if i < stream_bits(message).len() {
                with_lsb(channels[i], stream_bits(message)[i])
            } else {
                channels[i]
            },
    )
}

/// Hide `message` in the grid: write its bits, then the marker's bits, one
/// per channel in stream order, touching nothing past the last bit written.
/// When the stream is longer than the grid's capacity, the excess is
/// silently dropped; `PixelGrid::fits` tells the cases apart beforehand.
pub fn hide_lsb(grid: &mut PixelGrid, message: &Vec<u8>)
    ensures
        final(grid).spec_width() == old(grid).spec_width(),
        final(grid).spec_height() == old(grid).spec_height(),
        final(grid).channel_seq() == hidden_channels(old(grid).channel_seq(), message@),
{
    let ghost orig = grid.channel_seq();
    let ghost stream = stream_bits(message@);
    let n = grid.capacity();
    let mut i: usize = 0;
    while i < n
        invariant_except_break
            i <= n,
        invariant
            i <= stream.len(),
            stream == stream_bits(message@),
            stream.len() == 8 * (message@.len() + 6),
            n == grid.channel_seq().len(),
            orig.len() == n,
            grid.spec_width() == old(grid).spec_width(),
            grid.spec_height() == old(grid).spec_height(),
            forall|j: int| 0 <= j < i ==> grid.channel_seq()[j] == with_lsb(orig[j], stream[j]),
            forall|j: int| i <= j < n ==> grid.channel_seq()[j] == orig[j],
        ensures
            i == n || i == stream.len(),
        decreases n - i,
    {
        let byte_index = i / 8;
        proof {
            assert(8 * byte_index <= i < 8 * (byte_index + 1));
        }
        let b: u8;
        if byte_index < message.len() {
            b = message[byte_index];
        } else {
            let m = byte_index - message.len();
            if m >= 6 {
                proof {
                    assert(i >= 8 * (message@.len() + 6));
                }
                break ;
            }
            b = marker_byte(m);
        }
        proof {
            assert(i < stream.len());
            assert((message@ + marker_seq())[byte_index as int] == b);
        }
        let k = (i % 8) as u8;
        let bit = (b >> k) & 1 == 1;
        proof {
            assert(stream[i as int] == byte_bit(b, i as int % 8));
            assert(bit == stream[i as int]);
        }
        grid.set_channel_lsb(i, bit);
        i = i + 1;
    }
    proof {
        assert(grid.channel_seq() =~= hidden_channels(orig, message@));
    }
}

/// The least-significant bits of the channel values, in stream order.
pub open spec fn lsb_stream(channels: Seq<u8>) -> Seq<bool> {
    Seq::new(channels.len(), |i: int| lsb(channels[i]))
}

/// The bytes a scan of the grid assembles: every complete group of eight
/// channel bits packed into one byte; a trailing group of fewer than eight
/// bits is dropped.
pub open spec fn assembled_bytes(channels: Seq<u8>) -> Seq<u8> {
    Seq::new(
        channels.len() / 8,
        |j: int| pack_byte(lsb_stream(channels).subrange(8 * j, 8 * j + 8)),
    )
}

/// Whether the last six bytes of `s` are exactly the marker.
pub open spec fn ends_with_marker(s: Seq<u8>) -> bool {
    s.len() >= 6 && (forall|k: int| 0 <= k < 6 ==> s[s.len() - 6 + k] == marker_seq()[k])
}

/// The scan of the assembled bytes from position `j` on: at the first
/// position where the bytes so far end with the marker, stop and drop the
/// marker; when the marker never shows, every byte comes back.
pub open spec fn scan_from(bytes: Seq<u8>, j: int) -> Seq<u8>
    recommends
        0 <= j <= bytes.len(),
    decreases bytes.len() - j,
    when 0 <= j
{
    if j >= bytes.len() {
        bytes
    } else if ends_with_marker(bytes.subrange(0, j + 1)) {
        bytes.subrange(0, j + 1 - 6)
    } else {
        scan_from(bytes, j + 1)
    }
}

/// Everything revealing returns, as a function of the channel values alone.
pub open spec fn revealed_message(channels: Seq<u8>) -> Seq<u8> {
    scan_from(assembled_bytes(channels), 0)
}

/// The scan stops at the first position where the marker shows: when the
/// bytes through `e` end with the marker and no earlier prefix does, the
/// scan returns everything before that marker.
proof fn lemma_scan_hits(bytes: Seq<u8>, j: int, e: int)
    requires
        0 <= j < e <= bytes.len(),
        ends_with_marker(bytes.subrange(0, e)),
        forall|p: int| j < p < e ==> !ends_with_marker(bytes.subrange(0, p)),
    ensures
        scan_from(bytes, j) == bytes.subrange(0, e - 6),
    decreases e - j,
{
    if j + 1 == e {
    } else {
        assert(!ends_with_marker(bytes.subrange(0, j + 1)));
        lemma_scan_hits(bytes, j + 1, e);
    }
}

/// When no prefix past `j` ends with the marker, the scan returns all bytes.
proof fn lemma_scan_misses(bytes: Seq<u8>, j: int)
    requires
        0 <= j <= bytes.len(),
        forall|p: int| j < p <= bytes.len() ==> !ends_with_marker(bytes.subrange(0, p)),
    ensures
        scan_from(bytes, j) == bytes,
    decreases bytes.len() - j,
{
    if j >= bytes.len() {
    } else {
        assert(!ends_with_marker(bytes.subrange(0, j + 1)));
        lemma_scan_misses(bytes, j + 1);
    }
}

/// Bits at and above `br1 == br + 1` stay clear when a single bit is folded
/// in at position `br`.
proof fn lemma_or_shift_high_zero(acc: u8, bit: u8, br: u8, br1: u8)
    by (bit_vector)
    requires
        bit <= 1,
        br < 8,
        br1 == br + 1,
        acc >> br == 0,
    ensures
        (acc | (bit << br)) >> br1 == 0,
{
}

/// Bits below `br` are untouched when a bit is folded in at position `br`.
proof fn lemma_or_shift_keeps_low(acc: u8, bit: u8, br: u8, k: u8)
    by (bit_vector)
    requires
        k < br,
        br < 8,
    ensures
        (acc | (bit << br)) >> k & 1 == acc >> k & 1,
{
}

/// Folding a bit in at the first clear position stores exactly that bit.
proof fn lemma_or_shift_sets_at(acc: u8, bit: u8, br: u8)
    by (bit_vector)
    requires
        bit <= 1,
        br < 8,
        acc >> br == 0,
    ensures
        (acc | (bit << br)) >> br & 1 == bit,
{
}

/// Whether the bytes collected so far end with the marker.
fn bytes_end_with_marker(bytes: &Vec<u8>) -> (r: bool)
    ensures
        r == ends_with_marker(bytes@),
{
    if bytes.len() < 6 {
        return false;
    }
    let start = bytes.len() - 6;
    let mut k: usize = 0;
    while k < 6
        invariant
            k <= 6,
            bytes@.len() >= 6,
            start == bytes@.len() - 6,
            start <= usize::MAX - 6,
            forall|t: int| 0 <= t < k ==> bytes@[start + t] == marker_seq()[t],
        decreases 6 - k,
    {
        if bytes[start + k] != marker_byte(k) {
            proof {
                assert(bytes@[start + k] != marker_seq()[k as int]);
            }
            return false;
        }
        k = k + 1;
    }
    true
}

/// Reveal the message hidden in the grid: read one bit per channel in
/// stream order, assemble bytes least-significant bit first, and stop at the
/// first point where the bytes so far end with the marker, returning
/// everything before it. When the marker never shows, every assembled byte
/// comes back; the caller cannot tell that case from a marked message other
/// than by the marker itself.
pub fn reveal_lsb(grid: &PixelGrid) -> (r: Vec<u8>)
    ensures
        r@ == revealed_message(grid.channel_seq()),
{
    let ghost cs = grid.channel_seq();
    let ghost bs = assembled_bytes(cs);
    let n = grid.capacity();
    let mut bytes: Vec<u8> = Vec::new();
    let mut acc: u8 = 0;
    let mut bits_read: u8 = 0;
    let mut i: usize = 0;
    proof {
        assert(Seq::<u8>::empty() =~= bs.subrange(0, 0));
        assert(0u8 >> 0u8 == 0) by (bit_vector);
    }
    while i < n
        invariant
            i <= n,
            n == cs.len(),
            cs == grid.channel_seq(),
            bs == assembled_bytes(cs),
            bs.len() == n as int / 8,
            bits_read as int == i as int % 8,
            bytes@.len() == i as int / 8,
            bytes@ == bs.subrange(0, i as int / 8),
            acc >> bits_read == 0,
            forall|k: int|
                0 <= k < bits_read ==> byte_bit(acc, k) == lsb(
                    cs[i as int - bits_read as int + k],
                ),
            forall|p: int| 0 < p <= bytes@.len() ==> !ends_with_marker(bs.subrange(0, p)),
        decreases n - i,
    {
        let c = grid.get_channel(i);
        let bit: u8 = c & 1;
        let ghost acc0 = acc;
        let ghost br0 = bits_read;
        let ghost i0 = i;
        proof {
            assert(bit <= 1) by (bit_vector)
                requires
                    bit == c & 1,
            ;
            assert((c & 1 == 1) == lsb(c));
        }
        acc = acc | (bit << bits_read);
        proof {
            lemma_or_shift_high_zero(acc0, bit, br0, (br0 + 1) as u8);
            lemma_or_shift_sets_at(acc0, bit, br0);
            assert forall|k: int| 0 <= k < br0 + 1 implies byte_bit(acc, k) == lsb(
                cs[i0 as int - br0 as int + k],
            ) by {
                if k < br0 {
                    lemma_or_shift_keeps_low(acc0, bit, br0, k as u8);
                    assert(byte_bit(acc, k) == byte_bit(acc0, k));
                } else {
                    assert(byte_bit(acc, k) == (bit == 1));
                    assert(lsb(cs[i0 as int]) == (bit == 1));
                }
            }
        }
        bits_read = bits_read + 1;
        i = i + 1;
        if bits_read == 8 {
            proof {
                let j = i0 as int / 8;
                assert(i as int == 8 * j + 8);
                assert(i as int / 8 == j + 1);
                assert(j + 1 <= bs.len());
                let window = lsb_stream(cs).subrange(8 * j, 8 * j + 8);
                assert forall|k: int| 0 <= k < 8 implies byte_bit(acc, k) == byte_bit(
                    bs[j],
                    k,
                ) by {
                    assert(window[k] == lsb(cs[8 * j + k]));
                    assert(byte_bit(acc, k) == lsb(cs[8 * j + k]));
                    lemma_pack_byte_bits(window, k);
                }
                lemma_byte_bits_eq(acc, bs[j]);
                assert(bytes@.push(acc) =~= bs.subrange(0, j + 1));
            }
            bytes.push(acc);
            acc = 0;
            bits_read = 0;
            proof {
                assert(0u8 >> 0u8 == 0) by (bit_vector);
            }
            if bytes_end_with_marker(&bytes) {
                let newlen = bytes.len() - 6;
                bytes.truncate(newlen);
                proof {
                    let e = i as int / 8;
                    lemma_scan_hits(bs, 0, e);
                    assert(bytes@ =~= bs.subrange(0, e - 6));
                }
                return bytes;
            }
            proof {
                assert forall|p: int| 0 < p <= bytes@.len() implies !ends_with_marker(
                    bs.subrange(0, p),
                ) by {
                    if p == bytes@.len() {
                        assert(bs.subrange(0, p) =~= bytes@);
                    }
                }
            }
        }
    }
    proof {
        lemma_scan_misses(bs, 0);
        assert(bytes@ =~= bs);
    }
    bytes
}

/// The marker occurs nowhere in `s` as a run of six consecutive bytes.
pub open spec fn marker_free(s: Seq<u8>) -> bool {
    forall|e: int| 6 <= e <= s.len() ==> !ends_with_marker(s.subrange(0, e))
}

/// Byte `j` assembled back from a grid the stream was hidden in is byte `j`
/// of the message-plus-marker, as long as its eight channels exist.
proof fn lemma_hidden_byte(channels: Seq<u8>, message: Seq<u8>, j: int)
    requires
        0 <= j < message.len() + 6,
        8 * (j + 1) <= channels.len(),
    ensures
        assembled_bytes(hidden_channels(channels, message))[j] == (message + marker_seq())[j],
{
    let h = hidden_channels(channels, message);
    let w = message + marker_seq();
    let stream = stream_bits(message);
    assert(j + 1 <= h.len() / 8) by {
        lemma_fundamental_div_mod_converse(8 * (j + 1), 8, j + 1, 0);
        lemma_div_is_ordered(8 * (j + 1), h.len() as int, 8);
    }
    let window = lsb_stream(h).subrange(8 * j, 8 * j + 8);
    assert forall|k: int| 0 <= k < 8 implies window[k] == byte_bit(w[j], k) by {
        let idx = 8 * j + k;
        assert(idx < stream.len());
        assert(h[idx] == with_lsb(channels[idx], stream[idx]));
        lemma_lsb_with_lsb(channels[idx], stream[idx]);
        lemma_fundamental_div_mod_converse(idx, 8, j, k);
        assert(stream[idx] == byte_bit(w[j], k));
    }
    assert forall|k: int| 0 <= k < 8 implies byte_bit(pack_byte(window), k) == byte_bit(
        w[j],
        k,
    ) by {
        lemma_pack_byte_bits(window, k);
    }
    lemma_byte_bits_eq(pack_byte(window), w[j]);
}

/// Before the end of message-plus-marker, no prefix ends with the marker:
/// occurrences inside the message are ruled out by `marker_free`, and the
/// marker cannot straddle the boundary, because no proper prefix of the
/// marker is also a suffix of it.
proof fn lemma_no_early_marker(message: Seq<u8>, e: int)
    requires
        marker_free(message),
        6 <= e < message.len() + 6,
    ensures
        !ends_with_marker((message + marker_seq()).subrange(0, e)),
{
    let w = message + marker_seq();
    let s = w.subrange(0, e);
    let m = message.len() as int;
    if e <= m {
        assert(s =~= message.subrange(0, e));
        assert(!ends_with_marker(message.subrange(0, e)));
    } else if ends_with_marker(s) {
        let t = e - m;
        if t == 1 {
            assert(s[e - 1] == marker_seq()[5]);
            assert(s[e - 1] == marker_seq()[0]);
        } else if t == 2 {
            assert(s[e - 1] == marker_seq()[5]);
            assert(s[e - 1] == marker_seq()[1]);
        } else if t == 3 {
            assert(s[e - 3] == marker_seq()[3]);
            assert(s[e - 3] == marker_seq()[0]);
        } else if t == 4 {
            assert(s[e - 4] == marker_seq()[2]);
            assert(s[e - 4] == marker_seq()[0]);
        } else {
            assert(s[e - 4] == marker_seq()[2]);
            assert(s[e - 4] == marker_seq()[1]);
        }
    }
}

/// All bytes of message-plus-marker that have their eight channels inside
/// the grid land intact in the assembled bytes.
proof fn lemma_assembled_matches(channels: Seq<u8>, message: Seq<u8>, e: int)
    requires
        0 <= e <= message.len() + 6,
        8 * e <= channels.len(),
    ensures
        e <= assembled_bytes(hidden_channels(channels, message)).len(),
        forall|j: int| 0 <= j < e ==> assembled_bytes(hidden_channels(channels, message))[j] == (
        message + marker_seq())[j],
{
    let h = hidden_channels(channels, message);
    assert(e <= h.len() / 8) by {
        lemma_fundamental_div_mod_converse(8 * e, 8, e, 0);
        lemma_div_is_ordered(8 * e, h.len() as int, 8);
    }
    assert forall|j: int| 0 <= j < e implies assembled_bytes(h)[j] == (message
        + marker_seq())[j] by {
        lemma_hidden_byte(channels, message, j);
    }
}

/// The scan of bytes that start with a marker-free message followed by the
/// marker returns exactly the message, whatever comes after.
proof fn lemma_scan_of_marked(bs: Seq<u8>, message: Seq<u8>)
    requires
        marker_free(message),
        message.len() + 6 <= bs.len(),
        forall|j: int| 0 <= j < message.len() + 6 ==> bs[j] == (message + marker_seq())[j],
    ensures
        scan_from(bs, 0) == message,
{
    let w = message + marker_seq();
    let e: int = message.len() as int + 6;
    assert(ends_with_marker(bs.subrange(0, e))) by {
        assert forall|k: int| 0 <= k < 6 implies bs.subrange(0, e)[e - 6 + k]
            == marker_seq()[k] by {
            assert(bs[e - 6 + k] == w[e - 6 + k]);
            assert(w[message.len() + k] == marker_seq()[k]);
        }
    }
    assert forall|p: int| 0 < p < e implies !ends_with_marker(bs.subrange(0, p)) by {
        if p >= 6 {
            lemma_no_early_marker(message, p);
            assert(bs.subrange(0, p) =~= w.subrange(0, p));
        }
    }
    lemma_scan_hits(bs, 0, e);
    assert(bs.subrange(0, e - 6) =~= message);
}

/// Round trip: hiding a marker-free message that fits, then revealing,
/// gives exactly the message back. A message that contains the marker is
/// cut short at the first occurrence instead; `lemma_false_positive_marker`
/// pins that behaviour down.
pub proof fn lemma_round_trip(channels: Seq<u8>, message: Seq<u8>)
    requires
        8 * (message.len() + 6) <= channels.len(),
        marker_free(message),
    ensures
        revealed_message(hidden_channels(channels, message)) == message,
{
    let e: int = message.len() as int + 6;
    lemma_assembled_matches(channels, message, e);
    lemma_scan_of_marked(assembled_bytes(hidden_channels(channels, message)), message);
}

/// Hiding the empty message in a grid of at least 48 channels and revealing
/// yields the empty message: the grid then carries the marker alone.
pub proof fn lemma_empty_round_trip(channels: Seq<u8>)
    requires
        48 <= channels.len(),
    ensures
        revealed_message(hidden_channels(channels, Seq::empty())) == Seq::<u8>::empty(),
{
    let empty = Seq::<u8>::empty();
    assert(marker_free(empty));
    lemma_round_trip(channels, empty);
}

/// Hiding changes at most the least-significant bit of any channel: every
/// higher bit of every channel keeps its old value.
pub proof fn lemma_high_bits_preserved(channels: Seq<u8>, message: Seq<u8>, i: int, k: int)
    requires
        0 <= i < channels.len(),
        1 <= k < 8,
    ensures
        byte_bit(hidden_channels(channels, message)[i], k) == byte_bit(channels[i], k),
{
    if i < stream_bits(message).len() {
        lemma_with_lsb_high_bits(channels[i], stream_bits(message)[i], k);
    }
}

/// Channels past the end of the bit stream keep their exact old value.
pub proof fn lemma_tail_untouched(channels: Seq<u8>, message: Seq<u8>, i: int)
    requires
        8 * (message.len() + 6) <= i < channels.len(),
    ensures
        hidden_channels(channels, message)[i] == channels[i],
{
}

/// Hiding never adds or drops channels, and a stream at least as long as
/// the capacity reaches every channel with its bit; the bits past the last
/// channel are dropped without touching anything.
pub proof fn lemma_capacity_boundary(channels: Seq<u8>, message: Seq<u8>)
    requires
        8 * (message.len() + 6) >= channels.len(),
    ensures
        hidden_channels(channels, message).len() == channels.len(),
        forall|i: int| 0 <= i < channels.len() ==> hidden_channels(channels, message)[i]
            == with_lsb(channels[i], stream_bits(message)[i]),
{
}

/// A message that itself ends with the marker is cut short: revealing stops
/// at that first, false match and returns only what stands before it.
pub proof fn lemma_false_positive_marker(channels: Seq<u8>, prefix: Seq<u8>)
    requires
        8 * (prefix.len() + 6) <= channels.len(),
        marker_free(prefix),
    ensures
        revealed_message(hidden_channels(channels, prefix + marker_seq())) == prefix,
{
    let message = prefix + marker_seq();
    let bs = assembled_bytes(hidden_channels(channels, message));
    let e: int = prefix.len() as int + 6;
    lemma_assembled_matches(channels, message, e);
    assert forall|j: int| 0 <= j < e implies bs[j] == (prefix + marker_seq())[j] by {
        assert(bs[j] == (message + marker_seq())[j]);
        assert((message + marker_seq())[j] == message[j]);
    }
    lemma_scan_of_marked(bs, prefix);
}

/// Whether the marker ever shows while the grid's bytes are assembled.
pub open spec fn marker_found(channels: Seq<u8>) -> bool {
    exists|e: int|
        6 <= e <= assembled_bytes(channels).len() && ends_with_marker(
            assembled_bytes(channels).subrange(0, e),
        )
}

/// A scan that hits the marker somewhere returns at least six bytes fewer
/// than it was given.
proof fn lemma_scan_found_is_short(bs: Seq<u8>, j: int)
    requires
        0 <= j <= bs.len(),
        exists|e: int| j < e <= bs.len() && ends_with_marker(bs.subrange(0, e)),
    ensures
        scan_from(bs, j).len() <= bs.len() - 6,
    decreases bs.len() - j,
{
    let e = choose|e: int| j < e <= bs.len() && ends_with_marker(bs.subrange(0, e));
    if ends_with_marker(bs.subrange(0, j + 1)) {
        assert(scan_from(bs, j).len() == j + 1 - 6);
    } else {
        assert(j + 1 < e <= bs.len() && ends_with_marker(bs.subrange(0, e)));
        lemma_scan_found_is_short(bs, j + 1);
    }
}

/// Whether revealing the grid would stop at the marker. Revealing itself
/// cannot signal this: when the marker never shows it silently returns every
/// assembled byte, and the caller cannot tell "no message present" from
/// "image too small" by the bytes alone. This check makes the outcome
/// observable.
pub fn marker_present(grid: &PixelGrid) -> (r: bool)
    ensures
        r == marker_found(grid.channel_seq()),
{
    let ghost cs = grid.channel_seq();
    let ghost bs = assembled_bytes(cs);
    let bytes = reveal_lsb(grid);
    let n = grid.capacity();
    proof {
        if marker_found(cs) {
            lemma_scan_found_is_short(bs, 0);
        } else {
            assert forall|p: int| 0 < p <= bs.len() implies !ends_with_marker(
                bs.subrange(0, p),
            ) by {
                if p >= 6 {
                    assert(!marker_found(cs));
                }
            }
            lemma_scan_misses(bs, 0);
        }
    }
    bytes.len() != n / 8
}

/// Revealing reads the grid and nothing else: equal channel values always
/// reveal equal messages.
pub proof fn lemma_reveal_deterministic(a: Seq<u8>, b: Seq<u8>)
    requires
        a == b,
    ensures
        revealed_message(a) == revealed_message(b),
{
}

} // verus!
