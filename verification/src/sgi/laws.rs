//! What holds of the decoder as a whole.

use vstd::prelude::*;

use super::raster;
use super::packed;
use super::rle;
use super::rle::{RleMachine, Scanline, SgiRgbScanlineState};
use super::scan;
use super::scan::SgiRgbDecodeState;
use super::tables;
use super::{SgiDecoder, SgiRgbDecodeError, SgiRgbHeaderInfo};
use crate::types::{ByteOrder, CodecError};

verus! {

/// A packet of a run-length encoded scanline.
#[verifier::ext_equal]
pub enum Packet {
    /// Samples that are copied.
    Copied(Seq<u16>),
    /// A sample, and how often it is repeated.
    Repeated(nat, u16),
}

impl Packet {
    /// The number of samples.
    pub open spec fn count(self) -> nat {
        match self {
            Packet::Copied(samples) => samples.len(),
            Packet::Repeated(n, _) => n,
        }
    }

    /// Whether the samples can be counted in seven bits and, unless they are `deep`, each
    /// fits into a byte.
    pub open spec fn wf(self, deep: bool) -> bool {
        &&& 0 < self.count() < 128
        &&& !deep ==> match self {
            Packet::Copied(samples) => forall|i: int|
                0 <= i < samples.len() ==> #[trigger] samples[i] < 256,
            Packet::Repeated(_, v) => v < 256,
        }
    }

    /// The samples.
    pub open spec fn samples(self) -> Seq<u16> {
        match self {
            Packet::Copied(samples) => samples,
            Packet::Repeated(n, v) => Seq::new(n, |i: int| v),
        }
    }

    /// The packet as it is stored: a counter, and samples.
    pub open spec fn words(self) -> Seq<u16> {
        match self {
            Packet::Copied(samples) => seq![(128 + samples.len()) as u16] + samples,
            Packet::Repeated(n, v) => seq![n as u16, v],
        }
    }
}

/// The samples of several packets.
pub open spec fn expanded(packets: Seq<Packet>) -> Seq<u16>
    decreases packets.len(),
{
    if packets.len() == 0 {
        Seq::empty()
    } else {
        packets[0].samples() + expanded(packets.drop_first())
    }
}

/// A scanline as it is stored: packets, and the end marker.
pub open spec fn encoded(packets: Seq<Packet>) -> Seq<u16>
    decreases packets.len(),
{
    if packets.len() == 0 {
        seq![0u16]
    } else {
        packets[0].words() + encoded(packets.drop_first())
    }
}

/// The bytes of words: two for each if they are `deep`, else one.
pub open spec fn word_bytes(deep: bool, words: Seq<u16>) -> Seq<u8>
    decreases words.len(),
{
    if words.len() == 0 {
        Seq::empty()
    } else if deep {
        seq![(words[0] / 256) as u8, (words[0] % 256) as u8] + word_bytes(deep, words.drop_first())
    } else {
        seq![words[0] as u8] + word_bytes(deep, words.drop_first())
    }
}

/// A machine that takes a word next.
spec fn at_word(deep: bool, m: RleMachine) -> bool {
    m.high_byte == deep
}

/// Taking the bytes of a word is taking a counter, or a sample.
proof fn lemma_take_word_bytes(
    deep: bool,
    m: RleMachine,
    word: u16,
    rest: Seq<u8>,
    ending: bool,
    xsize: u16,
)
    requires
        at_word(deep, m),
        !deep ==> word < 256,
        rest.len() > 0,
        ({
            let (next, out, r) = rle::take_word(m, (word % 256) as u8, word, xsize);
            r == Ok::<bool, bool>(false)
        }),
    ensures
        ({
            let (next, out, r) = rle::take_word(m, (word % 256) as u8, word, xsize);
            let hi = if deep {
                (word / 256) as u8
            } else {
                m.data_char_hi
            };
            let then = RleMachine { data_char_hi: hi, ..next };
            let tail = rle::run(deep, then, rest, ending, xsize);
            &&& at_word(deep, then)
            &&& rle::run(deep, m, word_bytes(deep, seq![word]) + rest, ending, xsize) == (rle::Run {
                samples: out + tail.samples,
                ..tail
            })
        }),
{
    reveal_with_fuel(word_bytes, 2);
    let one = seq![word];
    assert(one.drop_first() =~= Seq::empty());
    let (next, out, r) = rle::take_word(m, (word % 256) as u8, word, xsize);
    if deep {
        let hi = (word / 256) as u8;
        let lo = (word % 256) as u8;
        let all = word_bytes(deep, one) + rest;
        assert(all =~= seq![hi, lo] + rest);
        assert(all.drop_first() =~= seq![lo] + rest);
        assert((seq![lo] + rest).drop_first() =~= rest);
        let m1 = RleMachine { data_char_hi: hi, high_byte: false, ..m };
        assert(rle::take_byte(deep, m, hi, xsize).0 == m1);
        assert((hi * 256 + lo) as u16 == word);
        let then = RleMachine { data_char_hi: hi, ..next };
        assert(rle::take_byte(deep, m1, lo, xsize).0 == then);
        let tail = rle::run(deep, then, rest, ending, xsize);
        let mid = rle::run(deep, m1, seq![lo] + rest, ending, xsize);
        assert(mid == (rle::Run { samples: out + tail.samples, ..tail }));
        assert(Seq::<u16>::empty() + (out + tail.samples) =~= out + tail.samples);
    } else {
        let all = word_bytes(deep, one) + rest;
        assert(all =~= seq![word as u8] + rest);
        assert(all.drop_first() =~= rest);
    }
}

/// The bytes of two sequences of words follow each other.
proof fn lemma_word_bytes_add(deep: bool, a: Seq<u16>, b: Seq<u16>)
    ensures
        word_bytes(deep, a + b) == word_bytes(deep, a) + word_bytes(deep, b),
    decreases a.len(),
{
    if a.len() == 0 {
        assert(a + b =~= b);
        assert(word_bytes(deep, a) + word_bytes(deep, b) =~= word_bytes(deep, b));
    } else {
        assert((a + b).drop_first() =~= a.drop_first() + b);
        lemma_word_bytes_add(deep, a.drop_first(), b);
        assert(word_bytes(deep, a + b) =~= word_bytes(deep, a) + word_bytes(deep, b));
    }
}

/// Copied samples are decoded one after the other. The result is the machine behind them.
proof fn lemma_copied(
    deep: bool,
    m: RleMachine,
    samples: Seq<u16>,
    rest: Seq<u8>,
    ending: bool,
    xsize: u16,
) -> (then: RleMachine)
    requires
        at_word(deep, m),
        !m.at_counter,
        0 < samples.len() < 128,
        m.counter == 128 + samples.len(),
        m.position + samples.len() <= xsize,
        !deep ==> forall|i: int| 0 <= i < samples.len() ==> #[trigger] samples[i] < 256,
        rest.len() > 0,
    ensures
        at_word(deep, then),
        then.at_counter,
        then.position == m.position + samples.len(),
        ({
            let tail = rle::run(deep, then, rest, ending, xsize);
            rle::run(deep, m, word_bytes(deep, samples) + rest, ending, xsize) == (rle::Run {
                samples: samples + tail.samples,
                ..tail
            })
        }),
    decreases samples.len(),
{
    let v = samples[0];
    let more = samples.drop_first();
    let after = word_bytes(deep, more) + rest;
    assert(seq![v] + more =~= samples);
    lemma_word_bytes_add(deep, seq![v], more);
    assert(word_bytes(deep, samples) + rest =~= word_bytes(deep, seq![v]) + after);
    lemma_take_word_bytes(deep, m, v, after, ending, xsize);
    let next = rle::take_word(m, (v % 256) as u8, v, xsize).0;
    let hi = if deep {
        (v / 256) as u8
    } else {
        m.data_char_hi
    };
    let then = RleMachine { data_char_hi: hi, ..next };
    if more.len() == 0 {
        assert(after =~= rest);
        let tail = rle::run(deep, then, rest, ending, xsize);
        assert(seq![v] + tail.samples =~= samples + tail.samples);
        then
    } else {
        if !deep {
            assert forall|i: int| 0 <= i < more.len() implies #[trigger] more[i] < 256 by {
                assert(more[i] == samples[i + 1]);
            }
        }
        let fin = lemma_copied(deep, then, more, rest, ending, xsize);
        let tail = rle::run(deep, fin, rest, ending, xsize);
        assert(seq![v] + (more + tail.samples) =~= samples + tail.samples);
        fin
    }
}

/// A counter is taken where it stands. The result is the machine behind it.
proof fn lemma_counter(
    deep: bool,
    m: RleMachine,
    counter: u16,
    rest: Seq<u8>,
    ending: bool,
    xsize: u16,
) -> (then: RleMachine)
    requires
        at_word(deep, m),
        m.at_counter,
        counter < 256,
        counter % 128 != 0,
        rest.len() > 0,
    ensures
        at_word(deep, then),
        !then.at_counter,
        then.counter == counter,
        then.position == m.position,
        rle::run(deep, m, word_bytes(deep, seq![counter]) + rest, ending, xsize) == rle::run(
            deep,
            then,
            rest,
            ending,
            xsize,
        ),
{
    lemma_take_word_bytes(deep, m, counter, rest, ending, xsize);
    let then = RleMachine {
        data_char_hi: if deep {
            (counter / 256) as u8
        } else {
            m.data_char_hi
        },
        ..rle::take_word(m, (counter % 256) as u8, counter, xsize).0
    };
    let tail = rle::run(deep, then, rest, ending, xsize);
    assert(Seq::<u16>::empty() + tail.samples =~= tail.samples);
    then
}

/// A repeated sample is decoded where it stands. The result is the machine behind it.
proof fn lemma_repeated(
    deep: bool,
    m: RleMachine,
    v: u16,
    rest: Seq<u8>,
    ending: bool,
    xsize: u16,
) -> (then: RleMachine)
    requires
        at_word(deep, m),
        !m.at_counter,
        0 < m.counter < 128,
        m.position + m.counter <= xsize,
        !deep ==> v < 256,
        rest.len() > 0,
    ensures
        at_word(deep, then),
        then.at_counter,
        then.position == m.position + m.counter,
        ({
            let tail = rle::run(deep, then, rest, ending, xsize);
            rle::run(deep, m, word_bytes(deep, seq![v]) + rest, ending, xsize) == (rle::Run {
                samples: Seq::new(m.counter as nat, |i: int| v) + tail.samples,
                ..tail
            })
        }),
{
    lemma_take_word_bytes(deep, m, v, rest, ending, xsize);
    let (next, out, _) = rle::take_word(m, (v % 256) as u8, v, xsize);
    assert(out =~= Seq::new(m.counter as nat, |i: int| v));
    RleMachine {
        data_char_hi: if deep {
            (v / 256) as u8
        } else {
            m.data_char_hi
        },
        ..next
    }
}

/// A packet is decoded where it stands. The result is the machine behind it.
proof fn lemma_packet(
    deep: bool,
    m: RleMachine,
    packet: Packet,
    rest: Seq<u8>,
    ending: bool,
    xsize: u16,
) -> (then: RleMachine)
    requires
        at_word(deep, m),
        m.at_counter,
        packet.wf(deep),
        m.position + packet.count() <= xsize,
        rest.len() > 0,
    ensures
        at_word(deep, then),
        then.at_counter,
        then.position == m.position + packet.count(),
        ({
            let tail = rle::run(deep, then, rest, ending, xsize);
            rle::run(deep, m, word_bytes(deep, packet.words()) + rest, ending, xsize) == (
            rle::Run { samples: packet.samples() + tail.samples, ..tail })
        }),
{
    let counter = packet.words()[0];
    let body = packet.words().drop_first();
    let after = word_bytes(deep, body) + rest;
    assert(seq![counter] + body =~= packet.words());
    lemma_word_bytes_add(deep, seq![counter], body);
    assert(word_bytes(deep, packet.words()) + rest =~= word_bytes(deep, seq![counter]) + after);
    let m1 = lemma_counter(deep, m, counter, after, ending, xsize);
    match packet {
        Packet::Copied(samples) => {
            assert(body =~= samples);
            lemma_copied(deep, m1, samples, rest, ending, xsize)
        },
        Packet::Repeated(n, v) => {
            assert(body =~= seq![v]);
            let then = lemma_repeated(deep, m1, v, rest, ending, xsize);
            assert(packet.samples() =~= Seq::new(m1.counter as nat, |i: int| v));
            then
        },
    }
}

/// The end marker ends a scanline that is complete.
proof fn lemma_end_marker(deep: bool, m: RleMachine, xsize: u16)
    requires
        at_word(deep, m),
        m.at_counter,
        m.position == xsize,
    ensures
        ({
            let r = rle::run(deep, m, word_bytes(deep, seq![0u16]), true, xsize);
            r.error is None && r.samples == Seq::<u16>::empty()
        }),
{
    reveal_with_fuel(word_bytes, 2);
    reveal_with_fuel(rle::run, 3);
    let one = seq![0u16];
    assert(one.drop_first() =~= Seq::empty());
    if deep {
        assert(word_bytes(deep, one) =~= seq![0u8, 0u8]);
        assert(seq![0u8, 0u8].drop_first() =~= seq![0u8]);
        assert(seq![0u8].drop_first() =~= Seq::empty());
    } else {
        assert(word_bytes(deep, one) =~= seq![0u8]);
        assert(seq![0u8].drop_first() =~= Seq::empty());
    }
    assert(rle::run(deep, m, word_bytes(deep, one), true, xsize).samples =~= Seq::empty());
}

/// Packets are decoded where they stand.
proof fn lemma_packets(deep: bool, m: RleMachine, packets: Seq<Packet>, xsize: u16)
    requires
        at_word(deep, m),
        m.at_counter,
        forall|i: int| 0 <= i < packets.len() ==> (#[trigger] packets[i]).wf(deep),
        m.position + expanded(packets).len() == xsize,
    ensures
        ({
            let r = rle::run(deep, m, word_bytes(deep, encoded(packets)), true, xsize);
            r.error is None && r.samples == expanded(packets)
        }),
    decreases packets.len(),
{
    if packets.len() == 0 {
        lemma_end_marker(deep, m, xsize);
    } else {
        let p = packets[0];
        let more = packets.drop_first();
        let rest = word_bytes(deep, encoded(more));
        lemma_word_bytes_add(deep, p.words(), encoded(more));
        assert(encoded(more).len() > 0);
        assert(rest.len() > 0);
        assert(p.samples().len() == p.count());
        let then = lemma_packet(deep, m, p, rest, true, xsize);
        assert forall|i: int| 0 <= i < more.len() implies (#[trigger] more[i]).wf(deep) by {
            assert(more[i] == packets[i + 1]);
        }
        lemma_packets(deep, then, more, xsize);
    }
}

/// Several packets as they are stored, without the end marker.
pub open spec fn stored_packets(packets: Seq<Packet>) -> Seq<u16>
    decreases packets.len(),
{
    if packets.len() == 0 {
        Seq::empty()
    } else {
        packets[0].words() + stored_packets(packets.drop_first())
    }
}

/// Packets are decoded where they stand, if others follow them. The result is the machine behind
/// them.
proof fn lemma_stored_packets(
    deep: bool,
    m: RleMachine,
    packets: Seq<Packet>,
    rest: Seq<u8>,
    ending: bool,
    xsize: u16,
) -> (then: RleMachine)
    requires
        at_word(deep, m),
        m.at_counter,
        forall|i: int| 0 <= i < packets.len() ==> (#[trigger] packets[i]).wf(deep),
        m.position + expanded(packets).len() <= xsize,
        rest.len() > 0,
    ensures
        at_word(deep, then),
        then.at_counter,
        then.position == m.position + expanded(packets).len(),
        ({
            let tail = rle::run(deep, then, rest, ending, xsize);
            rle::run(deep, m, word_bytes(deep, stored_packets(packets)) + rest, ending, xsize) == (
            rle::Run { samples: expanded(packets) + tail.samples, ..tail })
        }),
    decreases packets.len(),
{
    if packets.len() == 0 {
        assert(word_bytes(deep, stored_packets(packets)) + rest =~= rest);
        let tail = rle::run(deep, m, rest, ending, xsize);
        assert(expanded(packets) + tail.samples =~= tail.samples);
        m
    } else {
        let p = packets[0];
        let more = packets.drop_first();
        let after = word_bytes(deep, stored_packets(more)) + rest;
        lemma_word_bytes_add(deep, p.words(), stored_packets(more));
        assert(word_bytes(deep, stored_packets(packets)) + rest =~= word_bytes(deep, p.words())
            + after);
        assert(p.samples().len() == p.count());
        let next = lemma_packet(deep, m, p, after, ending, xsize);
        assert forall|i: int| 0 <= i < more.len() implies (#[trigger] more[i]).wf(deep) by {
            assert(more[i] == packets[i + 1]);
        }
        let then = lemma_stored_packets(deep, next, more, rest, ending, xsize);
        let tail = rle::run(deep, then, rest, ending, xsize);
        assert(p.samples() + (expanded(more) + tail.samples) =~= expanded(packets) + tail.samples);
        then
    }
}

/// A scanline with fewer samples than the image is wide is refused at its end marker. Its samples are
/// decoded.
pub proof fn law_short_scanlines_are_refused(deep: bool, packets: Seq<Packet>, xsize: u16)
    requires
        forall|i: int| 0 <= i < packets.len() ==> (#[trigger] packets[i]).wf(deep),
        expanded(packets).len() < xsize,
    ensures
        ({
            let bytes = word_bytes(deep, stored_packets(packets)) + word_bytes(deep, seq![0u16]);
            let r = rle::run(deep, rle::fresh(deep), bytes, true, xsize);
            r.error == Some(SgiRgbDecodeError::ScanlineUnderflow) && r.samples == expanded(packets)
        }),
{
    reveal_with_fuel(word_bytes, 2);
    reveal_with_fuel(rle::run, 3);
    let one = seq![0u16];
    assert(one.drop_first() =~= Seq::empty());
    let rest = word_bytes(deep, one);
    if deep {
        assert(rest =~= seq![0u8, 0u8]);
        assert(seq![0u8, 0u8].drop_first() =~= seq![0u8]);
    } else {
        assert(rest =~= seq![0u8]);
    }
    let then = lemma_stored_packets(deep, rle::fresh(deep), packets, rest, true, xsize);
    assert(rle::run(deep, then, rest, true, xsize).samples =~= Seq::empty());
    assert(expanded(packets) + Seq::<u16>::empty() =~= expanded(packets));
}

/// What comes of a sample that is to be repeated too often, or after which the scanline ought to have
/// ended.
proof fn lemma_last_sample(
    deep: bool,
    m: RleMachine,
    v: u16,
    rest: Seq<u8>,
    ending: bool,
    xsize: u16,
)
    requires
        at_word(deep, m),
        !m.at_counter,
        0 < m.counter < 128,
        !deep ==> v < 256,
    ensures
        m.position + m.counter > xsize ==> ({
            let r = rle::run(deep, m, word_bytes(deep, seq![v]) + rest, ending, xsize);
            r.error == Some(SgiRgbDecodeError::ScanlineOverflow) && r.samples == Seq::<u16>::empty()
        }),
        m.position + m.counter <= xsize ==> rle::run(
            deep,
            m,
            word_bytes(deep, seq![v]),
            true,
            xsize,
        ).error == Some(SgiRgbDecodeError::ScanlineTooLong),
{
    reveal_with_fuel(word_bytes, 2);
    reveal_with_fuel(rle::run, 3);
    let one = seq![v];
    assert(one.drop_first() =~= Seq::empty());
    let bytes = word_bytes(deep, one);
    let all = bytes + rest;
    if deep {
        let lo = (v % 256) as u8;
        assert(bytes =~= seq![(v / 256) as u8, lo]);
        assert(bytes.drop_first() =~= seq![lo]);
        assert(all.drop_first() =~= seq![lo] + rest);
    } else {
        assert(bytes =~= seq![v as u8]);
    }
    if m.position + m.counter > xsize {
        assert(rle::run(deep, m, all, ending, xsize).samples =~= Seq::<u16>::empty());
    }
}

/// A scanline with more samples than the image is wide is refused where it goes beyond the image,
/// whatever follows.
pub proof fn law_long_scanlines_are_refused(
    deep: bool,
    packets: Seq<Packet>,
    n: nat,
    v: u16,
    rest: Seq<u8>,
    ending: bool,
    xsize: u16,
)
    requires
        forall|i: int| 0 <= i < packets.len() ==> (#[trigger] packets[i]).wf(deep),
        Packet::Repeated(n, v).wf(deep),
        expanded(packets).len() <= xsize,
        expanded(packets).len() + n > xsize,
    ensures
        ({
            let bytes = word_bytes(deep, stored_packets(packets)) + (word_bytes(
                deep,
                seq![n as u16],
            ) + (word_bytes(deep, seq![v]) + rest));
            let r = rle::run(deep, rle::fresh(deep), bytes, ending, xsize);
            r.error == Some(SgiRgbDecodeError::ScanlineOverflow) && r.samples == expanded(packets)
        }),
{
    let last = word_bytes(deep, seq![v]) + rest;
    let after = word_bytes(deep, seq![n as u16]) + last;
    let then = lemma_stored_packets(deep, rle::fresh(deep), packets, after, ending, xsize);
    let m = lemma_counter(deep, then, n as u16, last, ending, xsize);
    lemma_last_sample(deep, m, v, rest, ending, xsize);
    assert(expanded(packets) + Seq::<u16>::empty() =~= expanded(packets));
}

/// A scanline whose end marker comes before its stated end is refused.
pub proof fn law_early_end_markers_are_refused(
    deep: bool,
    packets: Seq<Packet>,
    rest: Seq<u8>,
    ending: bool,
    xsize: u16,
)
    requires
        forall|i: int| 0 <= i < packets.len() ==> (#[trigger] packets[i]).wf(deep),
        expanded(packets).len() == xsize,
        rest.len() > 0,
    ensures
        ({
            let bytes = word_bytes(deep, stored_packets(packets)) + (word_bytes(deep, seq![0u16])
                + rest);
            rle::run(deep, rle::fresh(deep), bytes, ending, xsize).error == Some(
                SgiRgbDecodeError::ScanlineTooShort,
            )
        }),
{
    reveal_with_fuel(word_bytes, 2);
    reveal_with_fuel(rle::run, 3);
    let one = seq![0u16];
    assert(one.drop_first() =~= Seq::empty());
    let last = word_bytes(deep, one) + rest;
    if deep {
        assert(word_bytes(deep, one) =~= seq![0u8, 0u8]);
        assert(last.drop_first() =~= seq![0u8] + rest);
    } else {
        assert(word_bytes(deep, one) =~= seq![0u8]);
    }
    let then = lemma_stored_packets(deep, rle::fresh(deep), packets, last, ending, xsize);
}

/// A scanline that does not have its end marker at its stated end is refused.
pub proof fn law_missing_end_markers_are_refused(
    deep: bool,
    packets: Seq<Packet>,
    n: nat,
    v: u16,
    xsize: u16,
)
    requires
        forall|i: int| 0 <= i < packets.len() ==> (#[trigger] packets[i]).wf(deep),
        Packet::Repeated(n, v).wf(deep),
        expanded(packets).len() + n <= xsize,
    ensures
        ({
            let bytes = word_bytes(deep, stored_packets(packets)) + (word_bytes(
                deep,
                seq![n as u16],
            ) + word_bytes(deep, seq![v]));
            rle::run(deep, rle::fresh(deep), bytes, true, xsize).error == Some(
                SgiRgbDecodeError::ScanlineTooLong,
            )
        }),
{
    let last = word_bytes(deep, seq![v]);
    let after = word_bytes(deep, seq![n as u16]) + last;
    let then = lemma_stored_packets(deep, rle::fresh(deep), packets, after, true, xsize);
    let m = lemma_counter(deep, then, n as u16, last, true, xsize);
    lemma_last_sample(deep, m, v, Seq::empty(), true, xsize);
}

/// Decoding a scanline gives back the samples that were encoded, however they were divided
/// into packets.
pub proof fn law_rle_round_trip(deep: bool, packets: Seq<Packet>, xsize: u16)
    requires
        forall|i: int| 0 <= i < packets.len() ==> (#[trigger] packets[i]).wf(deep),
        expanded(packets).len() == xsize,
    ensures
        ({
            let r = rle::run(
                deep,
                rle::fresh(deep),
                word_bytes(deep, encoded(packets)),
                true,
                xsize,
            );
            r.error is None && r.samples == expanded(packets)
        }),
{
    lemma_packets(deep, rle::fresh(deep), packets, xsize);
}

/// A scanline that ends within the first `c` bytes takes nothing of the others.
proof fn lemma_complete(
    info: SgiRgbHeaderInfo,
    l: Scanline,
    start: int,
    data: Seq<u8>,
    c: int,
)
    requires
        0 <= c <= data.len(),
        l.end() <= start + c,
    ensures
        raster::fresh_run(info, l, start, data.take(c)) == raster::fresh_run(info, l, start, data),
{
    assert(scan::piece(l, start, data.take(c)) =~= scan::piece(l, start, data));
}

/// A scanline that fails within the first `c` bytes fails.
proof fn lemma_fails_early(
    info: SgiRgbHeaderInfo,
    l: Scanline,
    start: int,
    data: Seq<u8>,
    c: int,
)
    requires
        0 <= c <= data.len(),
        l.length > 0,
        l.offset >= start,
        raster::fresh_run(info, l, start, data.take(c)).error is Some,
    ensures
        raster::fresh_run(info, l, start, data).error is Some,
{
    if l.end() <= start + c {
        lemma_complete(info, l, start, data, c);
    } else {
        let deep = info.color_type.is_deep();
        let a = data.take(c);
        let b = data.skip(c);
        assert(a + b =~= data);
        raster::lemma_piece_split(l, start, a, b);
        rle::lemma_run_split(
            deep,
            rle::fresh(deep),
            scan::piece(l, start, a),
            scan::piece(l, start + c, b),
            l.end() <= start + data.len(),
            info.xsize,
        );
    }
}

/// A scanline that has been decoded without an error fills its row.
proof fn lemma_fills_row(info: SgiRgbHeaderInfo, l: Scanline, start: int, data: Seq<u8>)
    requires
        l.length > 0,
        l.offset >= start,
        l.end() <= start + data.len(),
        raster::fresh_run(info, l, start, data).error is None,
    ensures
        raster::fresh_run(info, l, start, data).samples.len() == info.xsize,
{
    let deep = info.color_type.is_deep();
    rle::lemma_run(deep, rle::fresh(deep), scan::piece(l, start, data), true, info.xsize);
}

/// Every byte of the image is a byte of some pixel of some scanline.
pub proof fn lemma_places(info: SgiRgbHeaderInfo, q: int) -> (r: (Scanline, int, int))
    requires
        info.wf(),
        0 <= q < info.image_len(),
    ensures
        r.0.row_id < info.ysize,
        r.0.plane < info.channels(),
        0 <= r.1 < info.xsize,
        0 <= r.2 < rle::depth(info.color_type.is_deep()),
        scan::place(info, r.0, r.1, r.2) == q,
{
    let stride = info.stride();
    let d = rle::depth(info.color_type.is_deep());
    let ch = info.channels() as int;
    let w = info.xsize as int;
    assert(stride > 0) by (nonlinear_arith)
        requires
            stride == w * ch * d,
            w > 0,
            ch > 0,
            d > 0,
    ;
    let row = q / stride;
    let rest = q % stride;
    assert(q == row * stride + rest && 0 <= rest < stride && 0 <= row < info.ysize)
        by (nonlinear_arith)
        requires
            row == q / stride,
            rest == q % stride,
            stride > 0,
            0 <= q < info.ysize * stride,
    ;
    let s = rest / d;
    let b = rest % d;
    assert(rest == s * d + b && 0 <= b < d && 0 <= s < w * ch) by (nonlinear_arith)
        requires
            s == rest / d,
            b == rest % d,
            d > 0,
            0 <= rest < (w * ch) * d,
    ;
    let x = s / ch;
    let c = s % ch;
    assert(s == x * ch + c && 0 <= c < ch && 0 <= x < w) by (nonlinear_arith)
        requires
            x == s / ch,
            c == s % ch,
            ch > 0,
            0 <= s < w * ch,
    ;
    let line = Scanline {
        offset: 0,
        length: 0,
        row_id: (info.ysize - 1 - row) as u16,
        plane: c as u8,
    };
    assert(info.ysize - 1 - line.row_id == row);
    (line, x, b)
}

/// The tables list a scanline for every row of every channel.
proof fn lemma_listed(tables: Seq<u8>, info: SgiRgbHeaderInfo, row_id: u16, plane: u8) -> (r:
    Scanline)
    requires
        row_id < info.ysize,
        plane < info.channels(),
    ensures
        r.row_id == row_id,
        r.plane == plane,
        tables::table_lines(tables, info).contains(r),
{
    let h = info.ysize as int;
    let i = plane * h + row_id;
    vstd::arithmetic::div_mod::lemma_fundamental_div_mod_converse(i, h, plane as int, row_id as int);
    assert(0 <= i < info.channels() * h) by (nonlinear_arith)
        requires
            i == plane * h + row_id,
            0 <= row_id < h,
            0 <= plane,
            plane + 1 <= info.channels(),
    ;
    let ls = tables::table_lines(tables, info);
    assert(ls[i] == tables::table_line(tables, info, i));
    ls[i]
}

/// What of a file matters for an image does not depend on how many bytes the reader shows at a
/// time, nor on what the buffer held before: if the image can be read in one way, it can be read
/// in every way, and is the same.
pub proof fn law_windows_do_not_matter<E>(
    info: SgiRgbHeaderInfo,
    order: ByteOrder,
    tables: Seq<u8>,
    data: Seq<u8>,
    window1: int,
    fault1: Option<E>,
    k1: int,
    before1: Seq<u8>,
    after1: Seq<u8>,
    r1: Result<(), CodecError<E>>,
    window2: int,
    fault2: Option<E>,
    k2: int,
    before2: Seq<u8>,
    after2: Seq<u8>,
    r2: Result<(), CodecError<E>>,
)
    requires
        info.wf(),
        window1 > 0,
        window2 > 0,
        before1.len() == info.image_len(),
        before2.len() == info.image_len(),
        tables::first_bad(tables, info, 0, info.entries()) is None,
        raster::decoded(
            info,
            order,
            tables::table_lines(tables, info),
            info.data_start(),
            data,
            window1,
            fault1,
            k1,
            before1,
            after1,
            r1,
        ),
        raster::decoded(
            info,
            order,
            tables::table_lines(tables, info),
            info.data_start(),
            data,
            window2,
            fault2,
            k2,
            before2,
            after2,
            r2,
        ),
        r1 is Ok,
    ensures
        r2 is Ok,
        after2 == after1,
{
    reveal(raster::decoded);
    reveal(raster::painted);
    let ls = tables::table_lines(tables, info);
    let start = info.data_start();
    let len = data.len() as int;
    let deep = info.color_type.is_deep();
    lemma_bounds(k1, window1, len);
    lemma_bounds(k2, window2, len);
    let c1 = raster::least(k1 * window1 + window1, len);
    let c2 = raster::least(k2 * window2 + window2, len);
    lemma_none_bad(tables, info, 0);
    assert forall|l: Scanline| #[trigger] ls.contains(l) implies {
        &&& l.length > 0
        &&& l.offset >= start
        &&& l.end() <= start + c1
        &&& raster::fresh_run(info, l, start, data).error is None
        &&& raster::fresh_run(info, l, start, data.take(c1)) == raster::fresh_run(
            info,
            l,
            start,
            data,
        )
        &&& raster::fresh_run(info, l, start, data.take(c2)).error is None
        &&& raster::fresh_run(info, l, start, data).samples.len() == info.xsize
    } by {
        let i = choose|i: int| 0 <= i < ls.len() && ls[i] == l;
        assert(ls[i] == tables::table_line(tables, info, i));
        assert(!tables::is_bad(tables::table_line(tables, info, i), info));
        lemma_complete(info, l, start, data, c1);
        if raster::fresh_run(info, l, start, data.take(c2)).error is Some {
            lemma_fails_early(info, l, start, data, c2);
        }
        lemma_fills_row(info, l, start, data);
    }
    let live = choose|l: Scanline|
        #[trigger] ls.contains(l) && l.end() > start + raster::least(k2 * window2, len);
    assert(ls.contains(live));
    assert(r2 is Ok);
    assert forall|l: Scanline| #[trigger] ls.contains(l) implies raster::fresh_run(
        info,
        l,
        start,
        data.take(c2),
    ) == raster::fresh_run(info, l, start, data) by {
        lemma_complete(info, l, start, data, c2);
    }
    assert forall|q: int| 0 <= q < after1.len() implies after2[q] == #[trigger] after1[q] by {
        let (line, x, b) = lemma_places(info, q);
        let l = lemma_listed(tables, info, line.row_id, line.plane);
        assert(scan::place(info, l, x, b) == q);
        assert(ls.contains(l));
    }
    assert(after2 =~= after1);
}

/// Where windows start and end.
proof fn lemma_bounds(k: int, window: int, len: int)
    requires
        k >= 0,
        window > 0,
        len >= 0,
    ensures
        0 <= raster::least(k * window, len) <= len,
        0 <= raster::least(k * window + window, len) <= len,
{
    assert(k * window >= 0) by (nonlinear_arith)
        requires
            k >= 0,
            window > 0,
    ;
}

/// Where no entry is the first bad one, none is bad.
proof fn lemma_none_bad(tables: Seq<u8>, info: SgiRgbHeaderInfo, i: int)
    requires
        0 <= i,
        tables::first_bad(tables, info, i, info.entries()) is None,
    ensures
        forall|j: int|
            i <= j < info.entries() ==> !tables::is_bad(
                #[trigger] tables::table_line(tables, info, j),
                info,
            ),
    decreases info.entries() - i,
{
    if i < info.entries() {
        lemma_none_bad(tables, info, i + 1);
    }
}

/// The bytes of a file that a scanline is made of, where image data starts at `start`.
pub open spec fn encoded_at(line: Scanline, start: int, data: Seq<u8>) -> Seq<u8> {
    data.subrange(line.offset - start, line.end() - start)
}

/// Reading a run-length encoded image gives back the samples that were encoded, wherever in the
/// file the scanlines are, however they were divided into packets, however many bytes the reader
/// shows at a time, and whatever the buffer held before. The packets are those of each row,
/// counting from the bottom, and channel.
pub proof fn law_rle_image_round_trip<E>(
    info: SgiRgbHeaderInfo,
    order: ByteOrder,
    tables: Seq<u8>,
    packets: spec_fn(u16, u8) -> Seq<Packet>,
    data: Seq<u8>,
    window: int,
    fault: Option<E>,
    k: int,
    before: Seq<u8>,
    after: Seq<u8>,
    r: Result<(), CodecError<E>>,
)
    requires
        info.wf(),
        window > 0,
        before.len() == info.image_len(),
        tables::first_bad(tables, info, 0, info.entries()) is None,
        forall|l: Scanline| #[trigger]
            tables::table_lines(tables, info).contains(l) ==> {
                let ps = packets(l.row_id, l.plane);
                let deep = info.color_type.is_deep();
                &&& forall|i: int| 0 <= i < ps.len() ==> (#[trigger] ps[i]).wf(deep)
                &&& expanded(ps).len() == info.xsize
                &&& l.end() <= info.data_start() + data.len()
                &&& encoded_at(l, info.data_start(), data) == word_bytes(deep, encoded(ps))
            },
        raster::decoded(
            info,
            order,
            tables::table_lines(tables, info),
            info.data_start(),
            data,
            window,
            fault,
            k,
            before,
            after,
            r,
        ),
    ensures
        r is Ok,
        after.len() == before.len(),
        forall|row_id: u16, plane: u8, x: int, b: int|
            row_id < info.ysize && plane < info.channels() && 0 <= x < info.xsize && 0 <= b
                < rle::depth(info.color_type.is_deep()) ==> after[#[trigger] scan::place(
                info,
                Scanline { offset: 0, length: 0, row_id, plane },
                x,
                b,
            )] == rle::stored(
                info.color_type.is_deep(),
                order,
                expanded(packets(row_id, plane))[x],
                b,
            ),
{
    reveal(raster::decoded);
    reveal(raster::painted);
    let ls = tables::table_lines(tables, info);
    let start = info.data_start();
    let len = data.len() as int;
    let deep = info.color_type.is_deep();
    lemma_bounds(k, window, len);
    let c = raster::least(k * window + window, len);
    lemma_none_bad(tables, info, 0);
    assert forall|l: Scanline| #[trigger] ls.contains(l) implies {
        let run = raster::fresh_run(info, l, start, data);
        &&& l.offset >= start
        &&& run.error is None
        &&& run.samples == expanded(packets(l.row_id, l.plane))
        &&& raster::fresh_run(info, l, start, data.take(c)).error is None
    } by {
        let i = choose|i: int| 0 <= i < ls.len() && ls[i] == l;
        assert(ls[i] == tables::table_line(tables, info, i));
        assert(!tables::is_bad(tables::table_line(tables, info, i), info));
        assert(scan::piece(l, start, data) =~= encoded_at(l, start, data));
        law_rle_round_trip(deep, packets(l.row_id, l.plane), info.xsize);
        if raster::fresh_run(info, l, start, data.take(c)).error is Some {
            lemma_fails_early(info, l, start, data, c);
        }
    }
    let live = choose|l: Scanline| #[trigger]
        ls.contains(l) && l.end() > start + raster::least(k * window, len);
    assert(ls.contains(live));
    assert(r is Ok);
    assert forall|row_id: u16, plane: u8, x: int, b: int|
        row_id < info.ysize && plane < info.channels() && 0 <= x < info.xsize && 0 <= b
            < rle::depth(deep) implies after[#[trigger] scan::place(
        info,
        Scanline { offset: 0, length: 0, row_id, plane },
        x,
        b,
    )] == rle::stored(deep, order, expanded(packets(row_id, plane))[x], b) by {
        let l = lemma_listed(tables, info, row_id, plane);
        assert(ls.contains(l));
        lemma_complete(info, l, start, data, c);
        assert(scan::place(info, l, x, b) == scan::place(
            info,
            Scanline { offset: 0, length: 0, row_id, plane },
            x,
            b,
        ));
    }
}

/// What two segments give, one after the other, is what they give at once: the same state, the same
/// table, and the same image. How the reader cuts the data does not matter.
pub proof fn law_cuts_do_not_matter(
    info: SgiRgbHeaderInfo,
    order: ByteOrder,
    a: Seq<u8>,
    b: Seq<u8>,
    state0: SgiRgbDecodeState,
    table0: Seq<SgiRgbScanlineState>,
    buf0: Seq<u8>,
    state1: SgiRgbDecodeState,
    table1: Seq<SgiRgbScanlineState>,
    buf1: Seq<u8>,
    r: Result<(SgiRgbDecodeState, bool), SgiRgbDecodeError>,
    table2: Seq<SgiRgbScanlineState>,
    buf2: Seq<u8>,
    state: SgiRgbDecodeState,
    done: bool,
    table: Seq<SgiRgbScanlineState>,
    buf: Seq<u8>,
)
    requires
        info.wf(),
        buf0.len() == info.image_len(),
        scan::table_ok(table0, info, state0),
        scan::segment_outcome(
            info,
            order,
            state0,
            a,
            table0,
            buf0,
            Ok((state1, false)),
            table1,
            buf1,
        ),
        scan::segment_outcome(info, order, state1, b, table1, buf1, r, table2, buf2),
        scan::segment_outcome(
            info,
            order,
            state0,
            a + b,
            table0,
            buf0,
            Ok((state, done)),
            table,
            buf,
        ),
    ensures
        r == Ok::<(SgiRgbDecodeState, bool), SgiRgbDecodeError>((state, done)),
        table2 == table,
        buf2 == buf,
{
    let deep = info.color_type.is_deep();
    let start = state0.pos as int;
    lemma_second_succeeds(
        info,
        order,
        a,
        b,
        state0,
        table0,
        buf0,
        state1,
        table1,
        buf1,
        r,
        table2,
        buf2,
    );
    let (state2, done2) = r->Ok_0;
    lemma_rows_after(info, order, start, a, table0, table1, buf0, buf1);
    lemma_rows_after(info, order, start + a.len(), b, table1, table2, buf1, buf2);
    lemma_rows_after(info, order, start, a + b, table0, table, buf0, buf);
    lemma_same_state(info, table2, state2, table, state);
    let ls = scan::lines(table0);
    assert(forall|i: int| 0 <= i < table0.len() ==> ls[i] == (#[trigger] table0[i]).line);
    assert(done2 == done) by {
        if exists|i: int| 0 <= i < table0.len() && (#[trigger] table0[i]).line.end() > start {
            let i = choose|i: int|
                0 <= i < table0.len() && (#[trigger] table0[i]).line.end() > state1.pos;
            assert(table1[i].line.end() > state1.pos);
        }
        if done2 {
            let i = choose|i: int|
                0 <= i < table1.len() && (#[trigger] table1[i]).line.end() > state1.pos;
            assert(table0[i].line.end() > start);
            assert forall|i: int| 0 <= i < table0.len() implies (#[trigger] table0[i]).line.end()
                <= state.pos by {
                assert(table1[i].line.end() <= state2.pos);
            }
        }
        if done {
            assert forall|i: int| 0 <= i < table1.len() implies (#[trigger] table1[i]).line.end()
                <= state2.pos by {
                assert(table0[i].line.end() <= state.pos);
            }
        }
    }
    assert forall|i: int| 0 <= i < table0.len() implies #[trigger] table2[i] == table[i] by {
        lemma_row_twice(info, order, a, b, state0, table0, buf0, table1, buf1, table2, buf2, i);
        assert(table[i].machine == scan::line_run(
            deep,
            table0[i],
            start,
            a + b,
            info.xsize,
        ).machine) by {
            reveal(scan::scanned);
        }
        lemma_links_twice(table0, table1, table2, table, start, state1, state, i);
    }
    assert(table2 =~= table);
    assert forall|q: int| 0 <= q < buf.len() implies #[trigger] buf2[q] == buf[q] by {
        let (l, x, y) = lemma_places(info, q);
        if scan::listed(table0, l.row_id, l.plane) {
            let i = choose|i: int|
                0 <= i < table0.len() && (#[trigger] table0[i]).line.row_id == l.row_id
                    && table0[i].line.plane == l.plane;
            lemma_row_twice(info, order, a, b, state0, table0, buf0, table1, buf1, table2, buf2, i);
            assert(scan::place(info, table0[i].line, x, y) == q);
            reveal(scan::scanned);
        } else {
            assert(!scan::listed(table1, l.row_id, l.plane)) by {
                if scan::listed(table1, l.row_id, l.plane) {
                    let i = choose|i: int|
                        0 <= i < table1.len() && (#[trigger] table1[i]).line.row_id == l.row_id
                            && table1[i].line.plane == l.plane;
                    assert(table0[i].line == table1[i].line);
                }
            }
            reveal(scan::scanned);
        }
    }
    assert(buf2 =~= buf);
}

/// A segment changes no pixel but those of scanlines that it meets, whether a scanline fails or not.
/// Where the scanlines are, and where they belong, stays the same.
pub proof fn law_other_pixels_stay(
    info: SgiRgbHeaderInfo,
    order: ByteOrder,
    state: SgiRgbDecodeState,
    segment: Seq<u8>,
    table0: Seq<SgiRgbScanlineState>,
    buf0: Seq<u8>,
    r: Result<(SgiRgbDecodeState, bool), SgiRgbDecodeError>,
    table1: Seq<SgiRgbScanlineState>,
    buf1: Seq<u8>,
    l: Scanline,
    x: int,
    b: int,
)
    requires
        scan::segment_outcome(info, order, state, segment, table0, buf0, r, table1, buf1),
        l.row_id < info.ysize,
        l.plane < info.channels(),
        0 <= x < info.xsize,
        0 <= b < rle::depth(info.color_type.is_deep()),
        forall|i: int|
            0 <= i < table0.len() && (#[trigger] table0[i]).line.row_id == l.row_id
                && table0[i].line.plane == l.plane ==> table0[i].line.end() <= state.pos
                || table0[i].line.offset >= state.pos + segment.len(),
    ensures
        buf1[scan::place(info, l, x, b)] == buf0[scan::place(info, l, x, b)],
        scan::lines(table1) == scan::lines(table0),
{
    reveal(scan::scanned);
    reveal(scan::line_run);
    let start = state.pos as int;
    let q = scan::place(info, l, x, b);
    if scan::listed(table0, l.row_id, l.plane) {
        let i = choose|i: int|
            0 <= i < table0.len() && (#[trigger] table0[i]).line.row_id == l.row_id
                && table0[i].line.plane == l.plane;
        assert(scan::place(info, table0[i].line, x, b) == q);
        assert(scan::piece(table0[i].line, start, segment) =~= Seq::empty());
    }
}

/// Scanning keeps the scanlines of a table.
proof fn lemma_rows_after(
    info: SgiRgbHeaderInfo,
    order: ByteOrder,
    start: int,
    segment: Seq<u8>,
    table0: Seq<SgiRgbScanlineState>,
    table1: Seq<SgiRgbScanlineState>,
    buf0: Seq<u8>,
    buf1: Seq<u8>,
)
    requires
        scan::scanned(info, order, start, segment, 0, table0, table1, buf0, buf1),
    ensures
        table1.len() == table0.len(),
        buf1.len() == buf0.len(),
        scan::lines(table1) == scan::lines(table0),
        forall|i: int| 0 <= i < table0.len() ==> (#[trigger] table1[i]).line == table0[i].line,
{
    reveal(scan::scanned);
    assert forall|i: int| 0 <= i < table0.len() implies (#[trigger] table1[i]).line
        == table0[i].line by {
        assert(scan::lines(table1)[i] == table1[i].line);
        assert(scan::lines(table0)[i] == table0[i].line);
    }
}

/// Where two segments at once do not make a scanline fail, the second one does not.
proof fn lemma_second_succeeds(
    info: SgiRgbHeaderInfo,
    order: ByteOrder,
    a: Seq<u8>,
    b: Seq<u8>,
    state0: SgiRgbDecodeState,
    table0: Seq<SgiRgbScanlineState>,
    buf0: Seq<u8>,
    state1: SgiRgbDecodeState,
    table1: Seq<SgiRgbScanlineState>,
    buf1: Seq<u8>,
    r: Result<(SgiRgbDecodeState, bool), SgiRgbDecodeError>,
    table2: Seq<SgiRgbScanlineState>,
    buf2: Seq<u8>,
)
    requires
        scan::table_ok(table0, info, state0),
        scan::segment_read(info, order, state0, a, table0, buf0, state1, false, table1, buf1),
        scan::segment_outcome(info, order, state1, b, table1, buf1, r, table2, buf2),
        scan::no_failure(info, state0.pos as int, a + b, table0, 0),
    ensures
        r is Ok,
{
    if r is Err {
        let e = r->Err_0;
        let start = state0.pos as int;
        let i = choose|i: int| #[trigger]
            scan::segment_fails(info, state1.pos as int, b, table1, i, e) && scan::scanned(
                info,
                order,
                state1.pos as int,
                b,
                i,
                table1,
                table2,
                buf1,
                buf2,
            );
        lemma_rows_after(info, order, start, a, table0, table1, buf0, buf1);
        assert(table1[i].machine == scan::line_run(
            info.color_type.is_deep(),
            table0[i],
            start,
            a,
            info.xsize,
        ).machine) by {
            reveal(scan::scanned);
        }
        assert(scan::lines(table0)[i] == table0[i].line);
        raster::lemma_line_run_split(info, table0[i], table1[i], start, a, b);
        assert(scan::line_run(
            info.color_type.is_deep(),
            table0[i],
            start,
            a + b,
            info.xsize,
        ).error is None);
    }
}

/// The position and the scanlines determine the state.
proof fn lemma_same_state(
    info: SgiRgbHeaderInfo,
    table1: Seq<SgiRgbScanlineState>,
    state1: SgiRgbDecodeState,
    table2: Seq<SgiRgbScanlineState>,
    state2: SgiRgbDecodeState,
)
    requires
        scan::lines(table1) == scan::lines(table2),
        state1.pos == state2.pos,
        scan::table_ok(table1, info, state1),
        scan::table_ok(table2, info, state2),
        forall|i: int|
            state1.cursor <= i < table1.len() ==> (#[trigger] table1[i]).line.offset > state1.pos,
        forall|i: int|
            state2.cursor <= i < table2.len() ==> (#[trigger] table2[i]).line.offset > state2.pos,
    ensures
        state1 == state2,
{
    assert(scan::lines(table1).len() == table1.len());
    assert(scan::lines(table2).len() == table2.len());
    assert(forall|i: int|
        0 <= i < table1.len() ==> scan::lines(table1)[i] == (#[trigger] table1[i]).line);
    assert(forall|i: int|
        0 <= i < table2.len() ==> scan::lines(table2)[i] == (#[trigger] table2[i]).line);
    if state1.cursor < state2.cursor {
        let c = state1.cursor as int;
        assert(table1[c].line == table2[c].line);
    } else if state2.cursor < state1.cursor {
        let c = state2.cursor as int;
        assert(table1[c].line == table2[c].line);
    }
}

/// A scanline after two segments.
proof fn lemma_row_twice(
    info: SgiRgbHeaderInfo,
    order: ByteOrder,
    a: Seq<u8>,
    b: Seq<u8>,
    state0: SgiRgbDecodeState,
    table0: Seq<SgiRgbScanlineState>,
    buf0: Seq<u8>,
    table1: Seq<SgiRgbScanlineState>,
    buf1: Seq<u8>,
    table2: Seq<SgiRgbScanlineState>,
    buf2: Seq<u8>,
    i: int,
)
    requires
        0 <= i < table0.len(),
        scan::table_ok(table0, info, state0),
        scan::scanned(info, order, state0.pos as int, a, 0, table0, table1, buf0, buf1),
        scan::no_failure(info, state0.pos as int, a, table0, 0),
        scan::scanned(info, order, state0.pos + a.len(), b, 0, table1, table2, buf1, buf2),
    ensures
        ({
            let deep = info.color_type.is_deep();
            let run = scan::line_run(deep, table0[i], state0.pos as int, a + b, info.xsize);
            &&& table2[i].machine == run.machine
            &&& forall|x: int, y: int|
                0 <= x < info.xsize && 0 <= y < rle::depth(deep) ==> buf2[#[trigger] scan::place(
                    info,
                    table0[i].line,
                    x,
                    y,
                )] == ({
                    let p = table0[i].machine.position;
                    if p <= x < p + run.samples.len() {
                        rle::stored(deep, order, run.samples[x - p], y)
                    } else {
                        buf0[scan::place(info, table0[i].line, x, y)]
                    }
                })
        }),
{
    let ls = scan::lines(table0);
    assert(ls[i] == table0[i].line);
    if ls[i].end() > state0.pos {
        assert(scan::active(ls, state0.pos as int, i));
    }
    raster::lemma_scanned_twice(
        info,
        order,
        state0.pos as int,
        a,
        b,
        0,
        table0,
        table1,
        table2,
        buf0,
        buf1,
        buf2,
        i,
    );
}

/// The link of a scanline after two segments.
proof fn lemma_links_twice(
    table0: Seq<SgiRgbScanlineState>,
    table1: Seq<SgiRgbScanlineState>,
    table2: Seq<SgiRgbScanlineState>,
    table: Seq<SgiRgbScanlineState>,
    start: int,
    state1: SgiRgbDecodeState,
    state: SgiRgbDecodeState,
    i: int,
)
    requires
        0 <= i < table0.len(),
        table0[i].line.length > 0,
        scan::lines(table1) == scan::lines(table0),
        start <= state1.pos <= state.pos,
        scan::links_read(start, state1, table0, table1),
        scan::links_read(state1.pos as int, state, table1, table2),
        scan::links_read(start, state, table0, table),
        i < state1.cursor <==> table0[i].line.offset <= state1.pos,
        i < state.cursor <==> table0[i].line.offset <= state.pos,
    ensures
        table2[i].prec_active_line == table[i].prec_active_line,
{
    let ls = scan::lines(table0);
    assert(ls.len() == table0.len());
    assert(scan::lines(table1).len() == table1.len());
    assert(ls[i] == table0[i].line);
    assert(table1[i].prec_active_line == table1[i].prec_active_line);
    assert(table2[i].prec_active_line == table2[i].prec_active_line);
    assert(table[i].prec_active_line == table[i].prec_active_line);
}

/// The file that holds an image without compression. The image's samples have their more
/// significant byte first.
pub open spec fn packed_file(info: SgiRgbHeaderInfo, img: Seq<u8>) -> Seq<u8> {
    let d = rle::depth(info.color_type.is_deep());
    Seq::new(
        (d * info.samples()) as nat,
        |n: int|
            {
                let j = n / d;
                let line = Scanline {
                    offset: 0,
                    length: 0,
                    row_id: ((j / info.xsize as int) % info.ysize as int) as u16,
                    plane: ((j / info.xsize as int) / info.ysize as int) as u8,
                };
                img[scan::place(info, line, j % info.xsize as int, n % d)]
            },
    )
}

/// Reading an uncompressed image gives back what was stored, whatever the buffer held before.
pub proof fn law_packed_round_trip(
    info: SgiRgbHeaderInfo,
    img: Seq<u8>,
    before: Seq<u8>,
    after: Seq<u8>,
)
    requires
        info.wf(),
        img.len() == info.image_len(),
        before.len() == info.image_len(),
        ({
            let data = packed_file(info, img);
            packed::unpacked(
                info,
                ByteOrder::Big,
                data,
                packed::available(info, data),
                before,
                after,
            )
        }),
    ensures
        after == img,
{
    let data = packed_file(info, img);
    let deep = info.color_type.is_deep();
    let d = rle::depth(deep);
    let w = info.xsize as int;
    let h = info.ysize as int;
    assert(info.samples() >= 0) by (nonlinear_arith)
        requires
            info.samples() == info.channels() * h * w,
            info.channels() >= 0,
            h >= 0,
            w >= 0,
    ;
    assert forall|q: int| 0 <= q < after.len() implies #[trigger] after[q] == img[q] by {
        let (l, x, b) = lemma_places(info, q);
        let j = packed::sample_index(info, l, x);
        packed::lemma_sample_index(info, l, x, l, x);
        let a = l.plane * h + l.row_id;
        vstd::arithmetic::div_mod::lemma_fundamental_div_mod_converse(j, w, a, x);
        vstd::arithmetic::div_mod::lemma_fundamental_div_mod_converse(
            a,
            h,
            l.plane as int,
            l.row_id as int,
        );
        assert forall|e: int| 0 <= e < d implies #[trigger] data[d * j + e] == img[scan::place(
            info,
            l,
            x,
            e,
        )] by {
            vstd::arithmetic::div_mod::lemma_fundamental_div_mod_converse(d * j + e, d, j, e);
            assert(0 <= d * j + e < d * info.samples()) by (nonlinear_arith)
                requires
                    0 <= e < d,
                    0 <= j,
                    j + 1 <= info.samples(),
            ;
        }
        if deep {
            assert(data[d * j + 0] == img[scan::place(info, l, x, 0)]);
            assert(data[d * j + 1] == img[scan::place(info, l, x, 1)]);
            let hi = data[2 * j];
            let lo = data[2 * j + 1];
            let v = packed::sample_at(deep, data, j);
            assert(v == hi * 256 + lo);
            assert(v / 256 == hi && v % 256 == lo);
        } else {
            assert(data[d * j + 0] == img[scan::place(info, l, x, 0)]);
        }
    }
    assert(after =~= img);
}

/// Reading an uncompressed file gives back the image that was stored, whatever follows it in the
/// file, and whatever the buffer held before, unless the limits keep it from being read.
pub proof fn law_packed_file_round_trip<E>(
    before: SgiDecoder<E>,
    has_table: bool,
    img: Seq<u8>,
    more: Seq<u8>,
    buf0: Seq<u8>,
    after: SgiDecoder<E>,
    buf1: Seq<u8>,
    r: Result<(), CodecError<E>>,
)
    requires
        before.wf(),
        before.header() is Ok,
        ({
            let info = before.header()->Ok_0;
            &&& !info.is_rle
            &&& SgiDecoder::<E>::refusal(info, before.limits, buf0.len(), has_table) is None
            &&& img.len() == info.image_len()
            &&& buf0.len() == info.image_len()
            &&& before.opened().reader.rest() == packed_file(info, img) + more
        }),
        SgiDecoder::frame_read(before, ByteOrder::Big, has_table, buf0, after, buf1, r),
    ensures
        r is Ok,
        buf1 == img,
        after.state is Done,
{
    let info = before.header()->Ok_0;
    let deep = info.color_type.is_deep();
    let d = rle::depth(deep);
    let file = packed_file(info, img);
    let data = file + more;
    assert(info.samples() >= 0) by (nonlinear_arith)
        requires
            info.samples() == info.channels() * info.ysize * info.xsize,
            info.channels() >= 0,
            info.ysize >= 0,
            info.xsize >= 0,
    ;
    assert(file.len() == d * info.samples());
    assert(packed::unpacked(
        info,
        ByteOrder::Big,
        file,
        packed::available(info, file),
        buf0,
        buf1,
    )) by {
        assert forall|l: Scanline, x: int, b: int|
            l.row_id < info.ysize && l.plane < info.channels() && 0 <= x < info.xsize && 0 <= b
                < d implies buf1[#[trigger] scan::place(info, l, x, b)] == rle::stored(
            deep,
            ByteOrder::Big,
            packed::sample_at(deep, file, packed::sample_index(info, l, x)),
            b,
        ) && packed::sample_index(info, l, x) < info.samples() by {
            packed::lemma_sample_index(info, l, x, l, x);
            let j = packed::sample_index(info, l, x);
            assert(packed::sample_at(deep, file, j) == packed::sample_at(deep, data, j));
        }
    }
    law_packed_round_trip(info, img, buf0, buf1);
}

/// Reading a run-length encoded file gives back the samples that were encoded, wherever in the
/// file the scanlines are, however they were divided into packets, and whatever the buffer held
/// before, unless the limits keep the image from being read. The packets are those of each row,
/// counting from the bottom, and channel.
pub proof fn law_rle_file_round_trip<E>(
    before: SgiDecoder<E>,
    order: ByteOrder,
    has_table: bool,
    packets: spec_fn(u16, u8) -> Seq<Packet>,
    buf0: Seq<u8>,
    after: SgiDecoder<E>,
    buf1: Seq<u8>,
    r: Result<(), CodecError<E>>,
)
    requires
        before.wf(),
        before.header() is Ok,
        ({
            let info = before.header()->Ok_0;
            let deep = info.color_type.is_deep();
            let tables = before.opened().reader.rest();
            let data = tables.skip(8 * info.entries());
            &&& info.is_rle
            &&& SgiDecoder::<E>::refusal(info, before.limits, buf0.len(), has_table) is None
            &&& buf0.len() == info.image_len()
            &&& tables.len() >= 8 * info.entries()
            &&& tables::first_bad(tables, info, 0, info.entries()) is None
            &&& forall|l: Scanline| #[trigger]
                tables::table_lines(tables, info).contains(l) ==> {
                    let ps = packets(l.row_id, l.plane);
                    &&& forall|i: int| 0 <= i < ps.len() ==> (#[trigger] ps[i]).wf(deep)
                    &&& expanded(ps).len() == info.xsize
                    &&& l.end() <= info.data_start() + data.len()
                    &&& encoded_at(l, info.data_start(), data) == word_bytes(deep, encoded(ps))
                }
        }),
        SgiDecoder::frame_read(before, order, has_table, buf0, after, buf1, r),
    ensures
        r is Ok,
        buf1.len() == buf0.len(),
        ({
            let info = before.header()->Ok_0;
            let deep = info.color_type.is_deep();
            forall|row_id: u16, plane: u8, x: int, b: int|
                row_id < info.ysize && plane < info.channels() && 0 <= x < info.xsize && 0 <= b
                    < rle::depth(deep) ==> buf1[#[trigger] scan::place(
                    info,
                    Scanline { offset: 0, length: 0, row_id, plane },
                    x,
                    b,
                )] == rle::stored(deep, order, expanded(packets(row_id, plane))[x], b)
        }),
{
    let info = before.header()->Ok_0;
    let opened = before.opened().reader;
    let tables = opened.rest();
    let behind = opened.advanced(8 * info.entries());
    assert(info.entries() >= 0) by (nonlinear_arith)
        requires
            info.entries() == info.channels() * info.ysize,
            info.channels() >= 0,
            info.ysize >= 0,
    ;
    assert(behind.rest() =~= tables.skip(8 * info.entries()));
    let k = choose|k: int| #[trigger]
        raster::decoded(
            info,
            order,
            tables::table_lines(tables, info),
            info.data_start(),
            behind.rest(),
            behind.window as int,
            behind.fault,
            k,
            buf0,
            buf1,
            r,
        ) && after.reader == raster::reader_after(behind, k);
    law_rle_image_round_trip(
        info,
        order,
        tables,
        packets,
        behind.rest(),
        behind.window as int,
        behind.fault,
        k,
        buf0,
        buf1,
        r,
    );
}

/// Asking for the layout again changes nothing, and gives the same layout.
pub proof fn law_peek_again<E>(d: SgiDecoder<E>)
    requires
        d.wf(),
        d.header() is Ok,
    ensures
        d.opened().header() == d.header(),
        d.opened().opened() == d.opened(),
{
}

} // verus!
