use vstd::prelude::*;

use vstd::arithmetic::div_mod::{
    lemma_fundamental_div_mod, lemma_mod_multiples_basic, lemma_small_mod,
};

use crate::track::Track;

verus! {

/// The tick length subtracted by the first matching rule of the greedy
/// duration decomposition, or 0 when no rule matches.
///
/// The rules are tried in a fixed priority order: whole, half, quarter,
/// triplet-quarter, eighth, triplet-eighth, sixteenth, triplet-sixteenth,
/// thirty-second, triplet-thirty-second, sixty-fourth, triplet-sixty-fourth,
/// then hundred-twenty-eighth.  Plain units match when the duration reaches
/// their length; triplet units match only when they divide the duration
/// exactly.  A unit whose tick length is zero never matches.
pub open spec fn grid_step(tpb: int, d: int) -> int {
    if tpb * 4 > 0 && d >= tpb * 4 {
        tpb * 4
    } else if tpb * 2 > 0 && d >= tpb * 2 {
        tpb * 2
    } else if tpb > 0 && d >= tpb {
        tpb
    } else if tpb / 3 > 0 && d % (tpb / 3) == 0 {
        tpb / 3
    } else if tpb / 2 > 0 && d >= tpb / 2 {
        tpb / 2
    } else if tpb / 6 > 0 && d % (tpb / 6) == 0 {
        tpb / 6
    } else if tpb / 4 > 0 && d >= tpb / 4 {
        tpb / 4
    } else if tpb / 12 > 0 && d % (tpb / 12) == 0 {
        tpb / 12
    } else if tpb / 8 > 0 && d >= tpb / 8 {
        tpb / 8
    } else if tpb / 24 > 0 && d % (tpb / 24) == 0 {
        tpb / 24
    } else if tpb / 16 > 0 && d >= tpb / 16 {
        tpb / 16
    } else if tpb / 48 > 0 && d % (tpb / 48) == 0 {
        tpb / 48
    } else if tpb / 32 > 0 && d >= tpb / 32 {
        tpb / 32
    } else {
        0
    }
}

/// The residue left by the greedy decomposition: units are subtracted,
/// largest first, until the duration reaches zero or no rule matches.
pub open spec fn grid_rem(tpb: int, d: int) -> int
    decreases d,
{
    if d > 0 && 0 < grid_step(tpb, d) <= d {
        grid_rem(tpb, d - grid_step(tpb, d))
    } else {
        d
    }
}

/// The decomposition is total: it never produces a negative residue and
/// never returns more than it was given, for every beat length.
pub proof fn lemma_grid_rem_total(tpb: int, d: int)
    requires
        d >= 0,
    ensures
        0 <= grid_rem(tpb, d) <= d,
    decreases d,
{
    if d > 0 && 0 < grid_step(tpb, d) <= d {
        lemma_grid_rem_total(tpb, d - grid_step(tpb, d));
    }
}

/// Every duration that lies on the triplet-sixty-fourth grid decomposes
/// completely (residue 0) when the beat length is a positive multiple of 48,
/// so that every unit down to the triplet-sixty-fourth has a whole tick
/// length.
pub proof fn lemma_grid_rem_complete(tpb: int, d: int)
    requires
        tpb >= 48,
        tpb % 48 == 0,
        d >= 0,
        d % (tpb / 48) == 0,
    ensures
        grid_rem(tpb, d) == 0,
    decreases d,
{
    let w = tpb / 48;
    lemma_fundamental_div_mod(tpb, 48);
    assert(tpb == 48 * w);
    if d > 0 {
        let u = grid_step(tpb, d);
        assert(tpb / 3 == 16 * w) by {
            vstd::arithmetic::div_mod::lemma_div_by_multiple(16 * w, 3);
        }
        assert(tpb / 2 == 24 * w) by {
            vstd::arithmetic::div_mod::lemma_div_by_multiple(24 * w, 2);
        }
        assert(tpb / 6 == 8 * w) by {
            vstd::arithmetic::div_mod::lemma_div_by_multiple(8 * w, 6);
        }
        assert(tpb / 4 == 12 * w) by {
            vstd::arithmetic::div_mod::lemma_div_by_multiple(12 * w, 4);
        }
        assert(tpb / 12 == 4 * w) by {
            vstd::arithmetic::div_mod::lemma_div_by_multiple(4 * w, 12);
        }
        assert(tpb / 8 == 6 * w) by {
            vstd::arithmetic::div_mod::lemma_div_by_multiple(6 * w, 8);
        }
        assert(tpb / 24 == 2 * w) by {
            vstd::arithmetic::div_mod::lemma_div_by_multiple(2 * w, 24);
        }
        assert(tpb / 16 == 3 * w) by {
            vstd::arithmetic::div_mod::lemma_div_by_multiple(3 * w, 16);
        }
        assert(tpb / 48 == w);
        // Some rule matches: at worst the triplet-sixty-fourth, whose length
        // w is positive and divides d.
        assert(u == 192 * w || u == 96 * w || u == 48 * w || u == 16 * w || u == 24 * w || u == 8
            * w || u == 12 * w || u == 4 * w || u == 6 * w || u == 2 * w || u == 3 * w || u == w);
        lemma_mod_multiples_basic(192, w);
        lemma_mod_multiples_basic(96, w);
        lemma_mod_multiples_basic(48, w);
        lemma_mod_multiples_basic(24, w);
        lemma_mod_multiples_basic(16, w);
        lemma_mod_multiples_basic(12, w);
        lemma_mod_multiples_basic(8, w);
        lemma_mod_multiples_basic(6, w);
        lemma_mod_multiples_basic(4, w);
        lemma_mod_multiples_basic(3, w);
        lemma_mod_multiples_basic(2, w);
        lemma_mod_multiples_basic(1, w);
        assert(u % w == 0);
        assert(u > 0);
        // A matched rule's unit never exceeds the duration: plain rules check
        // this directly, and a triplet rule that divides a positive duration
        // cannot be larger than it.
        assert(u <= d) by {
            if d < u {
                assert(d >= u || d % u == 0);
                lemma_small_mod(d as nat, u as nat);
            }
        }
        assert((d - u) % w == 0) by {
            lemma_fundamental_div_mod(u, w);
            vstd::arithmetic::div_mod::lemma_mod_multiples_vanish(u / w, d - u, w);
        }
        lemma_grid_rem_complete(tpb, d - u);
    }
}

impl Track {
    /// Greedy largest-fit decomposition of an inter-event gap against the
    /// beat grid; returns the tick residue that no note-length unit covers.
    pub fn divsion_tick(ticks_per_beat: u32, tick: u32) -> (r: u32)
        requires
            ticks_per_beat <= 0x3FFF_FFFF,
        ensures
            r as int == grid_rem(ticks_per_beat as int, tick as int),
    {
        let tpb = ticks_per_beat;
        let whole = tpb * 4;
        let half = tpb * 2;
        let quarter_3 = tpb / 3;
        let eighth = tpb / 2;
        let eighth_3 = tpb / 6;
        let sixteenth = tpb / 4;
        let sixteenth_3 = tpb / 12;
        let thirty_second = tpb / 8;
        let thirty_second_3 = tpb / 24;
        let sixty_fourth = tpb / 16;
        let sixty_fourth_3 = tpb / 48;
        let hundred_28 = tpb / 32;
        let mut t = tick;
        while t > 0
            invariant
                ticks_per_beat <= 0x3FFF_FFFF,
                tpb == ticks_per_beat,
                whole == tpb * 4,
                half == tpb * 2,
                quarter_3 == tpb as int / 3,
                eighth == tpb as int / 2,
                eighth_3 == tpb as int / 6,
                sixteenth == tpb as int / 4,
                sixteenth_3 == tpb as int / 12,
                thirty_second == tpb as int / 8,
                thirty_second_3 == tpb as int / 24,
                sixty_fourth == tpb as int / 16,
                sixty_fourth_3 == tpb as int / 48,
                hundred_28 == tpb as int / 32,
                grid_rem(tpb as int, tick as int) == grid_rem(tpb as int, t as int),
            decreases t,
        {
            if whole > 0 && t >= whole {
                t -= whole;
            } else if half > 0 && t >= half {
                t -= half;
            } else if tpb > 0 && t >= tpb {
                t -= tpb;
            } else if quarter_3 > 0 && t % quarter_3 == 0 {
                proof {
                    if t < quarter_3 {
                        lemma_small_mod(t as nat, quarter_3 as nat);
                    }
                }
                t -= quarter_3;
            } else if eighth > 0 && t >= eighth {
                t -= eighth;
            } else if eighth_3 > 0 && t % eighth_3 == 0 {
                proof {
                    if t < eighth_3 {
                        lemma_small_mod(t as nat, eighth_3 as nat);
                    }
                }
                t -= eighth_3;
            } else if sixteenth > 0 && t >= sixteenth {
                t -= sixteenth;
            } else if sixteenth_3 > 0 && t % sixteenth_3 == 0 {
                proof {
                    if t < sixteenth_3 {
                        lemma_small_mod(t as nat, sixteenth_3 as nat);
                    }
                }
                t -= sixteenth_3;
            } else if thirty_second > 0 && t >= thirty_second {
                t -= thirty_second;
            } else if thirty_second_3 > 0 && t % thirty_second_3 == 0 {
                proof {
                    if t < thirty_second_3 {
                        lemma_small_mod(t as nat, thirty_second_3 as nat);
                    }
                }
                t -= thirty_second_3;
            } else if sixty_fourth > 0 && t >= sixty_fourth {
                t -= sixty_fourth;
            } else if sixty_fourth_3 > 0 && t % sixty_fourth_3 == 0 {
                proof {
                    if t < sixty_fourth_3 {
                        lemma_small_mod(t as nat, sixty_fourth_3 as nat);
                    }
                }
                t -= sixty_fourth_3;
            } else if hundred_28 > 0 && t >= hundred_28 {
                t -= hundred_28;
            } else {
                return t;
            }
        }
        t
    }
}

} // verus!
