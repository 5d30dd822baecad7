use vstd::prelude::*;

use vstd::arithmetic::div_mod::lemma_small_mod;

use crate::event::{DataKind, Event};
use crate::grid::grid_step;
use crate::sort::{cst_le, sorted_cst};
use crate::track::Track;

verus! {

/// The digit group of the note-length token for the first matching rule of
/// the greedy decomposition, parallel to `grid_step`: `1` for a whole note
/// down to `128`, with `12`, `24`, `48`, `96` and `192` for the triplets.
pub open spec fn grid_token(tpb: int, d: int) -> Seq<u8> {
    if tpb * 4 > 0 && d >= tpb * 4 {
        seq![0x31u8]
    } else if tpb * 2 > 0 && d >= tpb * 2 {
        seq![0x32u8]
    } else if tpb > 0 && d >= tpb {
        seq![0x34u8]
    } else if tpb / 3 > 0 && d % (tpb / 3) == 0 {
        seq![0x31u8, 0x32u8]
    } else if tpb / 2 > 0 && d >= tpb / 2 {
        seq![0x38u8]
    } else if tpb / 6 > 0 && d % (tpb / 6) == 0 {
        seq![0x32u8, 0x34u8]
    } else if tpb / 4 > 0 && d >= tpb / 4 {
        seq![0x31u8, 0x36u8]
    } else if tpb / 12 > 0 && d % (tpb / 12) == 0 {
        seq![0x34u8, 0x38u8]
    } else if tpb / 8 > 0 && d >= tpb / 8 {
        seq![0x33u8, 0x32u8]
    } else if tpb / 24 > 0 && d % (tpb / 24) == 0 {
        seq![0x39u8, 0x36u8]
    } else if tpb / 16 > 0 && d >= tpb / 16 {
        seq![0x36u8, 0x34u8]
    } else if tpb / 48 > 0 && d % (tpb / 48) == 0 {
        seq![0x31u8, 0x39u8, 0x32u8]
    } else if tpb / 32 > 0 && d >= tpb / 32 {
        seq![0x31u8, 0x32u8, 0x38u8]
    } else {
        Seq::empty()
    }
}

/// What a rest of `d` ticks emits, and the line-wrap count it leaves
/// behind: one `r` token per greedily chosen unit, each followed by the
/// line breaks it completes.  An inexpressible residue emits nothing.
pub open spec fn rest_emit(tpb: int, d: int, line: int) -> (Seq<u8>, int)
    decreases d,
{
    let u = grid_step(tpb, d);
    if d > 0 && 0 < u <= d {
        let nl = (line + u) / (4 * tpb);
        let line2 = (line + u) % (4 * tpb);
        let rest = rest_emit(tpb, d - u, line2);
        (seq![0x72u8] + grid_token(tpb, d) + nl_seq(nl) + rest.0, rest.1)
    } else {
        (Seq::empty(), line)
    }
}

/// What a sustained note of `d` ticks emits: one pitch token per greedily
/// chosen unit, tied to the next with `&` while ticks remain.
pub open spec fn note_emit(tpb: int, d: int, note: Seq<u8>) -> Seq<u8>
    decreases d,
{
    let u = grid_step(tpb, d);
    if d > 0 && 0 < u <= d {
        note + grid_token(tpb, d) + (if d - u > 0 {
            seq![0x26u8]
        } else {
            Seq::empty()
        }) + note_emit(tpb, d - u, note)
    } else {
        Seq::empty()
    }
}

/// The pitch-class token of a key: `c` through `b`, sharps written `+`.
pub open spec fn note_bytes(key: u8) -> Seq<u8> {
    let pc = key as int % 12;
    if pc == 0 {
        seq![0x63u8]
    } else if pc == 1 {
        seq![0x63u8, 0x2bu8]
    } else if pc == 2 {
        seq![0x64u8]
    } else if pc == 3 {
        seq![0x64u8, 0x2bu8]
    } else if pc == 4 {
        seq![0x65u8]
    } else if pc == 5 {
        seq![0x66u8]
    } else if pc == 6 {
        seq![0x66u8, 0x2bu8]
    } else if pc == 7 {
        seq![0x67u8]
    } else if pc == 8 {
        seq![0x67u8, 0x2bu8]
    } else if pc == 9 {
        seq![0x61u8]
    } else if pc == 10 {
        seq![0x61u8, 0x2bu8]
    } else {
        seq![0x62u8]
    }
}

/// Append every byte of `src`.
pub fn push_all(out: &mut Vec<u8>, src: &Vec<u8>)
    ensures
        final(out)@ == old(out)@ + src@,
{
    let mut i: usize = 0;
    while i < src.len()
        invariant
            i <= src@.len(),
            out@ == old(out)@ + src@.take(i as int),
        decreases src@.len() - i,
    {
        out.push(src[i]);
        proof {
            assert(src@.take(i as int + 1) =~= src@.take(i as int).push(src@[i as int]));
            assert(old(out)@ + src@.take(i as int + 1) =~= (old(out)@ + src@.take(i as int)).push(
                src@[i as int],
            ));
        }
        i += 1;
    }
    proof {
        assert(src@.take(src@.len() as int) =~= src@);
    }
}

/// The decimal digits of `n`, most significant first, empty for `n <= 0`.
pub open spec fn dec_digits(n: int) -> Seq<u8>
    decreases n,
{
    if n <= 0 {
        Seq::empty()
    } else {
        dec_digits(n / 10).push((n % 10 + 0x30) as u8)
    }
}

/// The decimal rendering of a non-negative number: `0` is written out.
pub open spec fn dec_bytes(n: int) -> Seq<u8> {
    if n == 0 {
        seq![0x30u8]
    } else {
        dec_digits(n)
    }
}

/// `k` newline bytes.
pub open spec fn nl_seq(k: int) -> Seq<u8> {
    Seq::new(if k >= 0 {
        k as nat
    } else {
        0
    }, |i: int| 0x0au8)
}

/// Append the decimal rendering of `n`.
pub fn push_number(out: &mut Vec<u8>, n: u64)
    ensures
        final(out)@ == old(out)@ + dec_bytes(n as int),
{
    let ghost out0 = old(out)@;
    if n == 0 {
        out.push(0x30);
        proof {
            assert(out@ =~= out0 + dec_bytes(0));
        }
        return ;
    }
    let mut temp: Vec<u8> = Vec::new();
    let mut m = n;
    while m > 0
        invariant
            dec_digits(n as int) == dec_digits(m as int) + temp@.reverse(),
        decreases m,
    {
        let ghost t0 = temp@;
        let d = (m % 10) as u8 + 0x30;
        temp.push(d);
        proof {
            assert(temp@.reverse() =~= seq![d] + t0.reverse());
            assert(dec_digits(m as int) =~= dec_digits(m as int / 10) + seq![d]);
            assert(dec_digits(m as int / 10) + (seq![d] + t0.reverse()) =~= (dec_digits(
                m as int / 10,
            ) + seq![d]) + t0.reverse());
        }
        m = m / 10;
    }
    proof {
        assert(dec_digits(0) + temp@.reverse() =~= temp@.reverse());
        assert(dec_digits(n as int) == temp@.reverse());
    }
    let ghost digits = dec_digits(n as int);
    let mut k = temp.len();
    while k > 0
        invariant
            k <= temp@.len(),
            digits == temp@.reverse(),
            out@ == out0 + digits.take(temp@.len() - k),
        decreases k,
    {
        k -= 1;
        let ghost pre = out@;
        out.push(temp[k as usize]);
        proof {
            let l = temp@.len() as int;
            assert(digits[l - k - 1] == temp@[k as int]);
            assert(out@ =~= pre.push(temp@[k as int]));
            assert(digits.take(l - k) =~= digits.take(l - k - 1).push(digits[l - k - 1]));
            assert(out@ =~= out0 + digits.take(l - k));
        }
    }
    proof {
        assert(digits.take(temp@.len() as int) =~= digits);
        assert(dec_bytes(n as int) == digits);
    }
}

/// The running line-wrap state of the MML writer: a cosmetic line break is
/// emitted after every four beats' worth of tokens.
pub struct MmlStatus {
    pub ticks_per_beat: u32,
    pub line_ticks: u32,
}

impl MmlStatus {
    pub fn new(ticks_per_beat: u32) -> (r: Self)
        ensures
            r.ticks_per_beat == ticks_per_beat,
            r.line_ticks == 0,
    {
        MmlStatus { ticks_per_beat, line_ticks: 0 }
    }

    /// Account for emitted tokens worth `ticks`; a newline goes out for
    /// every full four beats the running count reaches.
    pub fn add_line_ticks(&mut self, ticks: u32, out: &mut Vec<u8>)
        requires
            1 <= old(self).ticks_per_beat <= 0x1FFF_FFFF,
        ensures
            final(self).ticks_per_beat == old(self).ticks_per_beat,
            final(self).line_ticks == (old(self).line_ticks + ticks) % (4 * old(
                self,
            ).ticks_per_beat as int),
            final(self).line_ticks < 4 * old(self).ticks_per_beat,
            final(out)@ == old(out)@ + nl_seq(
                (old(self).line_ticks + ticks) / (4 * old(self).ticks_per_beat as int),
            ),
    {
        let ghost out0 = old(out)@;
        let four = 4 * (self.ticks_per_beat as u64);
        let total = self.line_ticks as u64 + ticks as u64;
        let count = total / four;
        let rem = total % four;
        let mut j: u64 = 0;
        while j < count
            invariant
                j <= count,
                out@ == out0 + nl_seq(j as int),
            decreases count - j,
        {
            out.push(0x0a);
            proof {
                assert(out@ =~= out0 + nl_seq(j as int + 1));
            }
            j += 1;
        }
        self.line_ticks = rem as u32;
        proof {
            assert(out@ =~= out0 + nl_seq(count as int));
        }
    }
}

/// `";########## Track:"`, the run header's opening.
pub open spec fn hdr_prefix() -> Seq<u8> {
    seq![
        0x3bu8,
        0x23u8,
        0x23u8,
        0x23u8,
        0x23u8,
        0x23u8,
        0x23u8,
        0x23u8,
        0x23u8,
        0x23u8,
        0x23u8,
        0x20u8,
        0x54u8,
        0x72u8,
        0x61u8,
        0x63u8,
        0x6bu8,
        0x3au8,
    ]
}

/// `" Channel:"`.
pub open spec fn hdr_channel() -> Seq<u8> {
    seq![0x20u8, 0x43u8, 0x68u8, 0x61u8, 0x6eu8, 0x6eu8, 0x65u8, 0x6cu8, 0x3au8]
}

/// `" Sub:"`.
pub open spec fn hdr_sub() -> Seq<u8> {
    seq![0x20u8, 0x53u8, 0x75u8, 0x62u8, 0x3au8]
}

/// `" ##########"` and the closing newline.
pub open spec fn hdr_suffix() -> Seq<u8> {
    seq![
        0x20u8,
        0x23u8,
        0x23u8,
        0x23u8,
        0x23u8,
        0x23u8,
        0x23u8,
        0x23u8,
        0x23u8,
        0x23u8,
        0x23u8,
        0x0au8,
    ]
}

/// The comment line opening one (track, channel, lane) run.
pub open spec fn header_bytes(track_index: int, channel: u8, sub_channel: u8) -> Seq<u8> {
    hdr_prefix() + dec_bytes(track_index) + hdr_channel() + dec_bytes(channel as int) + hdr_sub()
        + dec_bytes(sub_channel as int) + hdr_suffix()
}

/// Append one run header.
fn push_header(out: &mut Vec<u8>, track_index: usize, channel: u8, sub_channel: u8)
    ensures
        final(out)@ == old(out)@ + header_bytes(track_index as int, channel, sub_channel),
{
    let ghost out0 = old(out)@;
    out.push(0x3b);
    let mut h: usize = 0;
    while h < 10
        invariant
            h <= 10,
            out@ == out0.push(0x3bu8) + Seq::new(h as nat, |i: int| 0x23u8),
        decreases 10 - h,
    {
        out.push(0x23);
        proof {
            assert(out@ =~= out0.push(0x3bu8) + Seq::new(h as nat + 1, |i: int| 0x23u8));
        }
        h += 1;
    }
    out.push(0x20);
    out.push(0x54);
    out.push(0x72);
    out.push(0x61);
    out.push(0x63);
    out.push(0x6b);
    out.push(0x3a);
    proof {
        assert(out@ =~= out0 + hdr_prefix());
    }
    push_number(out, track_index as u64);
    let ghost c0 = out@;
    out.push(0x20);
    out.push(0x43);
    out.push(0x68);
    out.push(0x61);
    out.push(0x6e);
    out.push(0x6e);
    out.push(0x65);
    out.push(0x6c);
    out.push(0x3a);
    proof {
        assert(out@ =~= c0 + hdr_channel());
    }
    push_number(out, channel as u64);
    let ghost s0 = out@;
    out.push(0x20);
    out.push(0x53);
    out.push(0x75);
    out.push(0x62);
    out.push(0x3a);
    proof {
        assert(out@ =~= s0 + hdr_sub());
    }
    push_number(out, sub_channel as u64);
    let ghost f0 = out@;
    out.push(0x20);
    let mut h2: usize = 0;
    while h2 < 10
        invariant
            h2 <= 10,
            out@ == f0.push(0x20u8) + Seq::new(h2 as nat, |i: int| 0x23u8),
        decreases 10 - h2,
    {
        out.push(0x23);
        proof {
            assert(out@ =~= f0.push(0x20u8) + Seq::new(h2 as nat + 1, |i: int| 0x23u8));
        }
        h2 += 1;
    }
    out.push(0x0a);
    proof {
        assert(out@ =~= f0 + hdr_suffix());
        assert(out@ =~= out0 + header_bytes(track_index as int, channel, sub_channel));
    }
}

/// The running state of the MML writer between events: the current run,
/// the tick the last gap ended at, and the volume and octave most recently
/// written out.
pub ghost struct EmitState {
    pub channel: u8,
    pub sub_channel: u8,
    pub pre_tick: int,
    pub volume: int,
    pub octave: int,
    pub line: int,
}

/// The bytes one event contributes to the score, and the state it leaves
/// behind.  A (channel, lane) boundary first closes the line and opens a
/// fresh run with default volume 75 and octave 4.
pub open spec fn event_emit(tpb: int, track_index: int, ev: Event, st: EmitState) -> (
    Seq<u8>,
    EmitState,
) {
    let boundary = ev.channel != st.channel || ev.sub_channel != st.sub_channel;
    let st0 = if boundary {
        EmitState {
            channel: ev.channel,
            sub_channel: ev.sub_channel,
            pre_tick: 0,
            volume: 75,
            octave: 4,
            line: 0,
        }
    } else {
        st
    };
    let prefix = if boundary {
        seq![0x0au8] + header_bytes(track_index, ev.channel, ev.sub_channel)
    } else {
        Seq::<u8>::empty()
    };
    let gap = ev.tick - st0.pre_tick;
    match ev.data_kind {
        DataKind::NoteOn(key_data) => {
            let r = rest_emit(tpb, gap, st0.line);
            let vol_tok = if st0.volume != key_data.vol as int {
                seq![0x76u8] + dec_bytes(key_data.vol as int)
            } else {
                Seq::<u8>::empty()
            };
            let oct_tok = if st0.octave != key_data.key as int / 12 {
                seq![0x6fu8] + dec_bytes(key_data.key as int / 12)
            } else {
                Seq::<u8>::empty()
            };
            (
                prefix + r.0 + vol_tok + oct_tok,
                EmitState {
                    channel: st0.channel,
                    sub_channel: st0.sub_channel,
                    pre_tick: ev.tick as int,
                    volume: key_data.vol as int,
                    octave: key_data.key as int / 12,
                    line: r.1,
                },
            )
        },
        DataKind::NoteOff(key_data) => {
            (
                prefix + note_emit(tpb, gap, note_bytes(key_data.key)) + nl_seq(
                    (st0.line + gap) / (4 * tpb),
                ),
                EmitState {
                    channel: st0.channel,
                    sub_channel: st0.sub_channel,
                    pre_tick: ev.tick as int,
                    volume: st0.volume,
                    octave: st0.octave,
                    line: (st0.line + gap) % (4 * tpb),
                },
            )
        },
        DataKind::ChangeTempo(tempo) => {
            let r = rest_emit(tpb, gap, st0.line);
            (
                prefix + r.0 + seq![0x74u8] + dec_bytes(tempo as int),
                EmitState {
                    channel: st0.channel,
                    sub_channel: st0.sub_channel,
                    pre_tick: ev.tick as int,
                    volume: st0.volume,
                    octave: st0.octave,
                    line: r.1,
                },
            )
        },
        DataKind::ChangeTimbre(program) => {
            (prefix + seq![0x40u8] + dec_bytes(program as int), st0)
        },
    }
}

/// The bytes that events `i` onward contribute, starting from state `st`.
pub open spec fn emit_from(s: Seq<Event>, i: int, tpb: int, track_index: int, st: EmitState) -> Seq<
    u8,
>
    decreases s.len() - i,
{
    if 0 <= i < s.len() {
        let step = event_emit(tpb, track_index, s[i], st);
        step.0 + emit_from(s, i + 1, tpb, track_index, step.1)
    } else {
        Seq::empty()
    }
}

/// The whole text of one track: a header for the first run, the events'
/// tokens with a fresh header at each (channel, lane) boundary, and a
/// closing newline.
pub open spec fn emit_track(s: Seq<Event>, tpb: int, track_index: int) -> Seq<u8> {
    header_bytes(track_index, s[0].channel, s[0].sub_channel) + emit_from(
        s,
        0,
        tpb,
        track_index,
        EmitState {
            channel: s[0].channel,
            sub_channel: s[0].sub_channel,
            pre_tick: 0,
            volume: 75,
            octave: 4,
            line: 0,
        },
    ) + seq![0x0au8]
}

impl Track {
    /// The pitch-class token of a key.
    pub fn get_note(key: u8) -> (r: Vec<u8>)
        ensures
            r@ == note_bytes(key),
    {
        let pc = key % 12;
        let mut r: Vec<u8> = Vec::new();
        if pc == 0 {
            r.push(0x63u8);
        } else if pc == 1 {
            r.push(0x63u8);
            r.push(0x2bu8);
        } else if pc == 2 {
            r.push(0x64u8);
        } else if pc == 3 {
            r.push(0x64u8);
            r.push(0x2bu8);
        } else if pc == 4 {
            r.push(0x65u8);
        } else if pc == 5 {
            r.push(0x66u8);
        } else if pc == 6 {
            r.push(0x66u8);
            r.push(0x2bu8);
        } else if pc == 7 {
            r.push(0x67u8);
        } else if pc == 8 {
            r.push(0x67u8);
            r.push(0x2bu8);
        } else if pc == 9 {
            r.push(0x61u8);
        } else if pc == 10 {
            r.push(0x61u8);
            r.push(0x2bu8);
        } else {
            r.push(0x62u8);
        }
        proof {
            assert(r@ =~= note_bytes(key));
        }
        r
    }

    /// Emit the rest tokens covering `ticks`, largest unit first, counting
    /// each token toward the line wrap as it goes out.  A residue that no
    /// unit can express is dropped.
    pub fn calc_rest(ticks: u32, mml_status: &mut MmlStatus, out: &mut Vec<u8>)
        requires
            1 <= old(mml_status).ticks_per_beat <= 0x1FFF_FFFF,
            old(mml_status).line_ticks < 4 * old(mml_status).ticks_per_beat,
        ensures
            final(mml_status).ticks_per_beat == old(mml_status).ticks_per_beat,
            final(out)@ == old(out)@ + rest_emit(
                old(mml_status).ticks_per_beat as int,
                ticks as int,
                old(mml_status).line_ticks as int,
            ).0,
            final(mml_status).line_ticks == rest_emit(
                old(mml_status).ticks_per_beat as int,
                ticks as int,
                old(mml_status).line_ticks as int,
            ).1,
            final(mml_status).line_ticks < 4 * old(mml_status).ticks_per_beat,
    {
        let ghost out0 = old(out)@;
        let ghost full = rest_emit(
            old(mml_status).ticks_per_beat as int,
            ticks as int,
            old(mml_status).line_ticks as int,
        );
        let tpb = mml_status.ticks_per_beat;
        let whole = tpb * 4;
        let half = tpb * 2;
        let quarter_3 = tpb / 3;
        let eighth = tpb / 2;
        let eighth_3 = tpb / 6;
        let sixteenth = tpb / 4;
        let sixteenth_3 = tpb / 12;
        let thirty_second = tpb / 8;
        let thirty_second_3 = tpb / 24;
        let sixty_fourth = tpb / 16;
        let sixty_fourth_3 = tpb / 48;
        let hundred_28 = tpb / 32;
        let mut t = ticks;
        while t > 0
            invariant
                tpb == mml_status.ticks_per_beat,
                tpb == old(mml_status).ticks_per_beat,
                1 <= tpb <= 0x1FFF_FFFF,
                mml_status.line_ticks < 4 * tpb,
                whole == tpb * 4,
                half == tpb * 2,
                quarter_3 == tpb as int / 3,
                eighth == tpb as int / 2,
                eighth_3 == tpb as int / 6,
                sixteenth == tpb as int / 4,
                sixteenth_3 == tpb as int / 12,
                thirty_second == tpb as int / 8,
                thirty_second_3 == tpb as int / 24,
                sixty_fourth == tpb as int / 16,
                sixty_fourth_3 == tpb as int / 48,
                hundred_28 == tpb as int / 32,
                out0 == old(out)@,
                full == rest_emit(
                    tpb as int,
                    ticks as int,
                    old(mml_status).line_ticks as int,
                ),
                out0 + full.0 == out@ + rest_emit(
                    tpb as int,
                    t as int,
                    mml_status.line_ticks as int,
                ).0,
                full.1 == rest_emit(tpb as int, t as int, mml_status.line_ticks as int).1,
            decreases t,
        {
            let ghost t0 = t;
            let ghost line0 = mml_status.line_ticks;
            let ghost out_pre = out@;
            if whole > 0 && t >= whole {
                out.push(0x72u8);
                out.push(0x31u8);
                mml_status.add_line_ticks(whole, out);
                t -= whole;
            } else if half > 0 && t >= half {
                out.push(0x72u8);
                out.push(0x32u8);
                mml_status.add_line_ticks(half, out);
                t -= half;
            } else if tpb > 0 && t >= tpb {
                out.push(0x72u8);
                out.push(0x34u8);
                mml_status.add_line_ticks(tpb, out);
                t -= tpb;
            } else if quarter_3 > 0 && t % quarter_3 == 0 {
                proof {
                    if t < quarter_3 {
                        lemma_small_mod(t as nat, quarter_3 as nat);
                    }
                }
                out.push(0x72u8);
                out.push(0x31u8);
                out.push(0x32u8);
                mml_status.add_line_ticks(quarter_3, out);
                t -= quarter_3;
            } else if eighth > 0 && t >= eighth {
                out.push(0x72u8);
                out.push(0x38u8);
                mml_status.add_line_ticks(eighth, out);
                t -= eighth;
            } else if eighth_3 > 0 && t % eighth_3 == 0 {
                proof {
                    if t < eighth_3 {
                        lemma_small_mod(t as nat, eighth_3 as nat);
                    }
                }
                out.push(0x72u8);
                out.push(0x32u8);
                out.push(0x34u8);
                mml_status.add_line_ticks(eighth_3, out);
                t -= eighth_3;
            } else if sixteenth > 0 && t >= sixteenth {
                out.push(0x72u8);
                out.push(0x31u8);
                out.push(0x36u8);
                mml_status.add_line_ticks(sixteenth, out);
                t -= sixteenth;
            } else if sixteenth_3 > 0 && t % sixteenth_3 == 0 {
                proof {
                    if t < sixteenth_3 {
                        lemma_small_mod(t as nat, sixteenth_3 as nat);
                    }
                }
                out.push(0x72u8);
                out.push(0x34u8);
                out.push(0x38u8);
                mml_status.add_line_ticks(sixteenth_3, out);
                t -= sixteenth_3;
            } else if thirty_second > 0 && t >= thirty_second {
                out.push(0x72u8);
                out.push(0x33u8);
                out.push(0x32u8);
                mml_status.add_line_ticks(thirty_second, out);
                t -= thirty_second;
            } else if thirty_second_3 > 0 && t % thirty_second_3 == 0 {
                proof {
                    if t < thirty_second_3 {
                        lemma_small_mod(t as nat, thirty_second_3 as nat);
                    }
                }
                out.push(0x72u8);
                out.push(0x39u8);
                out.push(0x36u8);
                mml_status.add_line_ticks(thirty_second_3, out);
                t -= thirty_second_3;
            } else if sixty_fourth > 0 && t >= sixty_fourth {
                out.push(0x72u8);
                out.push(0x36u8);
                out.push(0x34u8);
                mml_status.add_line_ticks(sixty_fourth, out);
                t -= sixty_fourth;
            } else if sixty_fourth_3 > 0 && t % sixty_fourth_3 == 0 {
                proof {
                    if t < sixty_fourth_3 {
                        lemma_small_mod(t as nat, sixty_fourth_3 as nat);
                    }
                }
                out.push(0x72u8);
                out.push(0x31u8);
                out.push(0x39u8);
                out.push(0x32u8);
                mml_status.add_line_ticks(sixty_fourth_3, out);
                t -= sixty_fourth_3;
            } else if hundred_28 > 0 && t >= hundred_28 {
                out.push(0x72u8);
                out.push(0x31u8);
                out.push(0x32u8);
                out.push(0x38u8);
                mml_status.add_line_ticks(hundred_28, out);
                t -= hundred_28;
            } else {
                proof {
                    assert(rest_emit(tpb as int, t as int, mml_status.line_ticks as int).0
                        =~= Seq::<u8>::empty());
                    assert(out0 + full.0 =~= out@);
                }
                return ;
            }
            proof {
                let tpbi = tpb as int;
                let u = grid_step(tpbi, t0 as int);
                assert(0 < u <= t0);
                assert(t == t0 - u);
                let nl = (line0 + u) / (4 * tpbi);
                let tail = rest_emit(tpbi, t as int, mml_status.line_ticks as int);
                assert(out@ =~= out_pre + (seq![0x72u8] + grid_token(tpbi, t0 as int) + nl_seq(nl)));
                assert(rest_emit(tpbi, t0 as int, line0 as int).0 =~= (seq![0x72u8] + grid_token(
                    tpbi,
                    t0 as int,
                ) + nl_seq(nl)) + tail.0);
                assert(out0 + full.0 =~= out@ + tail.0);
                assert(full.1 == tail.1);
            }
        }
        proof {
            assert(out0 + full.0 =~= out@);
        }
    }

    /// Emit one sustained note worth `ticks`: pitch tokens tied with `&`,
    /// the whole duration then counted toward the line wrap at once.
    pub fn calc_note(ticks: u32, note: &Vec<u8>, mml_status: &mut MmlStatus, out: &mut Vec<u8>)
        requires
            1 <= old(mml_status).ticks_per_beat <= 0x1FFF_FFFF,
            old(mml_status).line_ticks < 4 * old(mml_status).ticks_per_beat,
        ensures
            final(mml_status).ticks_per_beat == old(mml_status).ticks_per_beat,
            final(out)@ == old(out)@ + note_emit(
                old(mml_status).ticks_per_beat as int,
                ticks as int,
                note@,
            ) + nl_seq(
                (old(mml_status).line_ticks + ticks) / (4 * old(mml_status).ticks_per_beat as int),
            ),
            final(mml_status).line_ticks == (old(mml_status).line_ticks + ticks) % (4 * old(
                mml_status,
            ).ticks_per_beat as int),
            final(mml_status).line_ticks < 4 * old(mml_status).ticks_per_beat,
    {
        let ghost out0 = old(out)@;
        let ghost full = note_emit(old(mml_status).ticks_per_beat as int, ticks as int, note@);
        let tpb = mml_status.ticks_per_beat;
        let whole = tpb * 4;
        let half = tpb * 2;
        let quarter_3 = tpb / 3;
        let eighth = tpb / 2;
        let eighth_3 = tpb / 6;
        let sixteenth = tpb / 4;
        let sixteenth_3 = tpb / 12;
        let thirty_second = tpb / 8;
        let thirty_second_3 = tpb / 24;
        let sixty_fourth = tpb / 16;
        let sixty_fourth_3 = tpb / 48;
        let hundred_28 = tpb / 32;
        let line_ticks_total = ticks;
        let mut t = ticks;
        loop
            invariant
                tpb == mml_status.ticks_per_beat,
                *mml_status == *old(mml_status),
                1 <= tpb <= 0x1FFF_FFFF,
                whole == tpb * 4,
                half == tpb * 2,
                quarter_3 == tpb as int / 3,
                eighth == tpb as int / 2,
                eighth_3 == tpb as int / 6,
                sixteenth == tpb as int / 4,
                sixteenth_3 == tpb as int / 12,
                thirty_second == tpb as int / 8,
                thirty_second_3 == tpb as int / 24,
                sixty_fourth == tpb as int / 16,
                sixty_fourth_3 == tpb as int / 48,
                hundred_28 == tpb as int / 32,
                out0 + full == out@ + note_emit(tpb as int, t as int, note@),
            ensures
                *mml_status == *old(mml_status),
                out@ == out0 + full,
            decreases t,
        {
            if t == 0 {
                break ;
            }
            let ghost t0 = t;
            let ghost out_pre = out@;
            if whole > 0 && t >= whole {
                push_all(out, note);
                out.push(0x31u8);
                t -= whole;
            } else if half > 0 && t >= half {
                push_all(out, note);
                out.push(0x32u8);
                t -= half;
            } else if tpb > 0 && t >= tpb {
                push_all(out, note);
                out.push(0x34u8);
                t -= tpb;
            } else if quarter_3 > 0 && t % quarter_3 == 0 {
                proof {
                    if t < quarter_3 {
                        lemma_small_mod(t as nat, quarter_3 as nat);
                    }
                }
                push_all(out, note);
                out.push(0x31u8);
                out.push(0x32u8);
                t -= quarter_3;
            } else if eighth > 0 && t >= eighth {
                push_all(out, note);
                out.push(0x38u8);
                t -= eighth;
            } else if eighth_3 > 0 && t % eighth_3 == 0 {
                proof {
                    if t < eighth_3 {
                        lemma_small_mod(t as nat, eighth_3 as nat);
                    }
                }
                push_all(out, note);
                out.push(0x32u8);
                out.push(0x34u8);
                t -= eighth_3;
            } else if sixteenth > 0 && t >= sixteenth {
                push_all(out, note);
                out.push(0x31u8);
                out.push(0x36u8);
                t -= sixteenth;
            } else if sixteenth_3 > 0 && t % sixteenth_3 == 0 {
                proof {
                    if t < sixteenth_3 {
                        lemma_small_mod(t as nat, sixteenth_3 as nat);
                    }
                }
                push_all(out, note);
                out.push(0x34u8);
                out.push(0x38u8);
                t -= sixteenth_3;
            } else if thirty_second > 0 && t >= thirty_second {
                push_all(out, note);
                out.push(0x33u8);
                out.push(0x32u8);
                t -= thirty_second;
            } else if thirty_second_3 > 0 && t % thirty_second_3 == 0 {
                proof {
                    if t < thirty_second_3 {
                        lemma_small_mod(t as nat, thirty_second_3 as nat);
                    }
                }
                push_all(out, note);
                out.push(0x39u8);
                out.push(0x36u8);
                t -= thirty_second_3;
            } else if sixty_fourth > 0 && t >= sixty_fourth {
                push_all(out, note);
                out.push(0x36u8);
                out.push(0x34u8);
                t -= sixty_fourth;
            } else if sixty_fourth_3 > 0 && t % sixty_fourth_3 == 0 {
                proof {
                    if t < sixty_fourth_3 {
                        lemma_small_mod(t as nat, sixty_fourth_3 as nat);
                    }
                }
                push_all(out, note);
                out.push(0x31u8);
                out.push(0x39u8);
                out.push(0x32u8);
                t -= sixty_fourth_3;
            } else if hundred_28 > 0 && t >= hundred_28 {
                push_all(out, note);
                out.push(0x31u8);
                out.push(0x32u8);
                out.push(0x38u8);
                t -= hundred_28;
            } else {
                proof {
                    assert(note_emit(tpb as int, t as int, note@) =~= Seq::<u8>::empty());
                    assert(out0 + full =~= out@);
                }
                break ;
            }
            if t > 0 {
                out.push(0x26u8);
            }
            proof {
                let tpbi = tpb as int;
                let u = grid_step(tpbi, t0 as int);
                assert(0 < u <= t0);
                assert(t == t0 - u);
                let amp: Seq<u8> = if t > 0 {
                    seq![0x26u8]
                } else {
                    Seq::<u8>::empty()
                };
                assert(out@ =~= out_pre + (note@ + grid_token(tpbi, t0 as int) + amp));
                assert(note_emit(tpbi, t0 as int, note@) =~= (note@ + grid_token(tpbi, t0 as int)
                    + amp) + note_emit(tpbi, t as int, note@));
                assert(out0 + full =~= out@ + note_emit(tpbi, t as int, note@));
            }
        }
        mml_status.add_line_ticks(line_ticks_total, out);
    }

    /// Walk the finalized event list in (channel, lane, tick) order and
    /// write one MML staff per lane, tracking the written volume and octave
    /// to avoid redundant tokens.
    #[verifier::rlimit(100)]
    pub fn convert(&self, ticks_per_beat: u32) -> (r: Vec<u8>)
        requires
            1 <= ticks_per_beat <= 0x1FFF_FFFF,
            self.events@.len() > 0,
            sorted_cst(self.events@),
        ensures
            r@ == emit_track(self.events@, ticks_per_beat as int, self.track_index as int),
    {
        let ghost s = self.events@;
        let ghost tpbi = ticks_per_beat as int;
        let ghost ti = self.track_index as int;
        let mut out: Vec<u8> = Vec::new();
        let mut mml_status = MmlStatus::new(ticks_per_beat);
        let mut channel = self.events[0].channel;
        let mut sub_channel = self.events[0].sub_channel;
        let mut pre_tick: u32 = 0;
        let mut volume: u8 = 75;
        let mut octave: u8 = 4;
        push_header(&mut out, self.track_index, channel, sub_channel);
        proof {
            assert(emit_track(s, tpbi, ti) =~= out@ + emit_from(
                s,
                0,
                tpbi,
                ti,
                EmitState {
                    channel,
                    sub_channel,
                    pre_tick: pre_tick as int,
                    volume: volume as int,
                    octave: octave as int,
                    line: mml_status.line_ticks as int,
                },
            ) + seq![0x0au8]);
        }
        let mut i: usize = 0;
        while i < self.events.len()
            invariant
                i <= s.len(),
                s == self.events@,
                s.len() > 0,
                sorted_cst(s),
                tpbi == ticks_per_beat as int,
                ti == self.track_index as int,
                1 <= ticks_per_beat <= 0x1FFF_FFFF,
                mml_status.ticks_per_beat == ticks_per_beat,
                mml_status.line_ticks < 4 * ticks_per_beat,
                forall|k: int|
                    i <= k < s.len() && (#[trigger] s[k]).channel == channel && s[k].sub_channel
                        == sub_channel ==> pre_tick <= s[k].tick,
                emit_track(s, tpbi, ti) == out@ + emit_from(
                    s,
                    i as int,
                    tpbi,
                    ti,
                    EmitState {
                        channel,
                        sub_channel,
                        pre_tick: pre_tick as int,
                        volume: volume as int,
                        octave: octave as int,
                        line: mml_status.line_ticks as int,
                    },
                ) + seq![0x0au8],
            decreases s.len() - i,
        {
            let ghost st_pre = EmitState {
                channel,
                sub_channel,
                pre_tick: pre_tick as int,
                volume: volume as int,
                octave: octave as int,
                line: mml_status.line_ticks as int,
            };
            let ghost out_pre = out@;
            let ev = self.events[i];
            if ev.channel != channel || ev.sub_channel != sub_channel {
                out.push(0x0a);
                mml_status = MmlStatus::new(ticks_per_beat);
                channel = ev.channel;
                sub_channel = ev.sub_channel;
                push_header(&mut out, self.track_index, channel, sub_channel);
                pre_tick = 0;
                volume = 75;
                octave = 4;
            }
            let ghost st0 = EmitState {
                channel,
                sub_channel,
                pre_tick: pre_tick as int,
                volume: volume as int,
                octave: octave as int,
                line: mml_status.line_ticks as int,
            };
            let ghost prefix_end = out@;
            proof {
                assert(st0 == if ev.channel != st_pre.channel || ev.sub_channel
                    != st_pre.sub_channel {
                    EmitState {
                        channel: ev.channel,
                        sub_channel: ev.sub_channel,
                        pre_tick: 0,
                        volume: 75,
                        octave: 4,
                        line: 0,
                    }
                } else {
                    st_pre
                });
                assert forall|k: int|
                    i < k < s.len() && (#[trigger] s[k]).channel == channel && s[k].sub_channel
                        == sub_channel implies ev.tick <= s[k].tick by {
                    assert(cst_le(s[i as int], s[k]));
                }
            }
            match ev.data_kind {
                DataKind::NoteOn(key_data) => {
                    Track::calc_rest(ev.tick - pre_tick, &mut mml_status, &mut out);
                    if volume != key_data.vol {
                        volume = key_data.vol;
                        out.push(0x76);
                        push_number(&mut out, volume as u64);
                    }
                    if octave != key_data.key / 12 {
                        octave = key_data.key / 12;
                        out.push(0x6f);
                        push_number(&mut out, octave as u64);
                    }
                    pre_tick = ev.tick;
                },
                DataKind::NoteOff(key_data) => {
                    let note = Track::get_note(key_data.key);
                    Track::calc_note(ev.tick - pre_tick, &note, &mut mml_status, &mut out);
                    pre_tick = ev.tick;
                },
                DataKind::ChangeTempo(tempo) => {
                    Track::calc_rest(ev.tick - pre_tick, &mut mml_status, &mut out);
                    out.push(0x74);
                    push_number(&mut out, tempo as u64);
                    pre_tick = ev.tick;
                },
                DataKind::ChangeTimbre(program) => {
                    out.push(0x40);
                    push_number(&mut out, program as u64);
                },
            }
            proof {
                let step = event_emit(tpbi, ti, s[i as int], st_pre);
                assert(out@ =~= out_pre + step.0);
                let st_now = EmitState {
                    channel,
                    sub_channel,
                    pre_tick: pre_tick as int,
                    volume: volume as int,
                    octave: octave as int,
                    line: mml_status.line_ticks as int,
                };
                assert(st_now == step.1);
                assert(emit_from(s, i as int, tpbi, ti, st_pre) =~= step.0 + emit_from(
                    s,
                    i as int + 1,
                    tpbi,
                    ti,
                    step.1,
                ));
                assert(out_pre + (step.0 + emit_from(s, i as int + 1, tpbi, ti, step.1)) =~= out@
                    + emit_from(s, i as int + 1, tpbi, ti, step.1));
            }
            i += 1;
        }
        proof {
            assert(emit_from(
                s,
                s.len() as int,
                tpbi,
                ti,
                EmitState {
                    channel,
                    sub_channel,
                    pre_tick: pre_tick as int,
                    volume: volume as int,
                    octave: octave as int,
                    line: mml_status.line_ticks as int,
                },
            ) =~= Seq::<u8>::empty());
        }
        out.push(0x0a);
        proof {
            assert(out@ =~= emit_track(s, tpbi, ti));
        }
        out
    }
}

} // verus!
