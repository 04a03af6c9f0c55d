//! Records of the feed, field by field.
use crate::double::facts;
use crate::double::rounding;
use crate::double::{Double, ZERO};
use crate::ingest::adsb;
use crate::ingest::adsb::{Aircraft, Reading};
use crate::ingest::adsb::{MAX_LAT_DEG, MAX_LON_DEG, MAX_REPORTED_AGE_S};
use crate::ingest::{Contact, Trig};
use crate::laws::closeness;
use crate::text;
use vstd::arithmetic::power2::*;
use vstd::prelude::*;

verus! {

/// The limits are 90 and 180 degrees, and 60 seconds.
pub proof fn law_limits()
    ensures
        (Double { bits: MAX_LAT_DEG }).value() == 90 * closeness::whole(),
        (Double { bits: MAX_LON_DEG }).value() == 180 * closeness::whole(),
        (Double { bits: MAX_REPORTED_AGE_S }).value() == 60 * closeness::whole(),
{
    lemma2_to64();
    lemma2_to64_rest();
    lemma_pow2_adds(46, 1028);
    lemma_pow2_adds(45, 1029);
    lemma_pow2_adds(47, 1027);
    rounding::lemma_units_at(1028, 0x16_8000_0000_0000);
    rounding::lemma_units_at(1029, 0x16_8000_0000_0000);
    rounding::lemma_units_at(1027, 0x1e_0000_0000_0000);
    let (a, b, c) = (pow2(1028), pow2(1029), pow2(1027));
    assert(0x16_8000_0000_0000 * a == 90 * (0x4000_0000_0000 * a));
    assert(0x16_8000_0000_0000 * b == 180 * (0x2000_0000_0000 * b));
    assert(0x1e_0000_0000_0000 * c == 60 * (0x8000_0000_0000 * c));
    let x = Double { bits: MAX_LAT_DEG };
    assert(x.magnitude() == MAX_LAT_DEG && !x.negative());
    let y = Double { bits: MAX_LON_DEG };
    assert(y.magnitude() == MAX_LON_DEG && !y.negative());
    let z = Double { bits: MAX_REPORTED_AGE_S };
    assert(z.magnitude() == MAX_REPORTED_AGE_S && !z.negative());
}

/// A coordinate is given, is a number, and is from -limit to limit degrees.
pub open spec fn is_coordinate(v: Option<Double>, limit: int) -> bool {
    &&& v matches Some(x)
    &&& x.finite()
    &&& -limit * closeness::whole() <= x.value() <= limit * closeness::whole()
}

/// An altitude is given and is a number.
pub open spec fn is_altitude(h: Option<(Double, bool)>) -> bool {
    h matches Some(h) && h.0.finite()
}

/// A record is a contact exactly if it has an address that is not blank, a latitude of at
/// most 90 degrees, a longitude of at most 180 degrees, both north or south and east or west,
/// and an altitude.
pub proof fn law_which_records_are_contacts(a: Aircraft)
    ensures
        adsb::is_contact(a) <==> {
            &&& a.hex matches Some(hex) && text::trimmed(hex@).len() > 0
            &&& is_coordinate(a.lat, 90)
            &&& is_coordinate(a.lon, 180)
            &&& is_altitude(adsb::height(a))
        },
{
    law_limits();
    facts::lemma_units_order(0, 0);
    if let Some(x) = a.lat {
        assert(x.absolute().magnitude() == x.magnitude() && !x.absolute().negative());
    }
    if let Some(x) = a.lon {
        assert(x.absolute().magnitude() == x.magnitude() && !x.absolute().negative());
    }
}

/// The text is the word, in small or in capital letters.
pub open spec fn spells(s: Seq<char>, word: Seq<char>) -> bool {
    &&& s.len() == word.len()
    &&& forall|i: int|
        0 <= i < s.len() ==> #[trigger] s[i] == word[i] || s[i] as int + 32 == word[i] as int
}

/// A text in small letters is the word exactly if it spells it.
proof fn lemma_spells(s: Seq<char>, word: Seq<char>)
    requires
        forall|i: int| 0 <= i < word.len() ==> 'a' <= #[trigger] word[i] <= 'z',
    ensures
        text::lowered(s) == text::lowered(word) <==> spells(s, word),
{
    let (l, w) = (text::lowered(s), text::lowered(word));
    assert forall|i: int| 0 <= i < word.len() implies #[trigger] w[i] == word[i] by {
        assert('a' <= word[i] <= 'z');
    }
    assert(w =~= word);
    assert forall|i: int| 0 <= i < s.len() && 0 <= i < word.len() implies (#[trigger] l[i]
        == word[i] <==> s[i] == word[i] || s[i] as int + 32 == word[i] as int) by {
        let (c, d) = (s[i], word[i]);
        assert('a' <= d <= 'z');
        assert(l[i] == text::lower(c));
        if 'A' <= c && c <= 'Z' {
            assert(text::lower(c) as int == c as int + 32);
        }
    }
    if spells(s, word) {
        assert forall|i: int| 0 <= i < s.len() implies #[trigger] l[i] == word[i] by {
            assert(s[i] == word[i] || s[i] as int + 32 == word[i] as int);
        }
        assert(l =~= word);
    }
    if l == word {
        assert(s.len() == word.len());
        assert forall|i: int| 0 <= i < s.len() implies #[trigger] s[i] == word[i] || s[i] as int + 32
            == word[i] as int by {
            assert(l[i] == word[i]);
        }
    }
}

/// The barometric altitude counts, in feet; where it is no number, the word "ground" puts
/// the aircraft on the ground at no altitude, and otherwise the geometric altitude counts.
pub proof fn law_which_altitude_counts(a: Aircraft)
    ensures
        match a.alt_baro {
            Some(Reading::Number(Some(ft))) => adsb::height(a) == Some((adsb::metres(ft), false)),
            Some(Reading::Number(None)) => adsb::height(a) is None,
            Some(Reading::Text(s)) if spells(s@, "ground"@) => adsb::height(a) matches Some(h)
                && h.0 == (Double { bits: ZERO }) && h.1,
            _ => match a.alt_geom {
                Some(ft) => adsb::height(a) == Some((adsb::metres(ft), false)),
                None => adsb::height(a) is None,
            },
        },
{
    reveal_strlit("ground");
    if let Some(Reading::Text(s)) = a.alt_baro {
        lemma_spells(s@, "ground"@);
    }
}

/// The age of a report is what it says, from nought to 60 seconds; what is less counts as
/// nought and what is more as 60; and what is no number, or absent, as nought.
pub proof fn law_ages_of_reports(raw: Option<Double>)
    ensures
        ({
            let age = adsb::credited_age(raw).value();
            let most = 60 * closeness::whole();
            match raw {
                Some(v) if v.finite() => {
                    &&& 0 <= v.value() <= most ==> age == v.value()
                    &&& v.value() < 0 ==> age == 0
                    &&& v.value() > most ==> age == most
                },
                _ => age == 0,
            }
        }),
{
    law_limits();
    facts::lemma_units_order(0, 0);
}

/// A field that is a number is taken as it is.
pub open spec fn taken(given: Option<Double>, got: Option<Double>) -> bool {
    match given {
        Some(v) if v.finite() => got == given,
        _ => got is None,
    }
}

/// A contact says what its record says. The call sign stands for the address only where it is
/// not blank; the aircraft type comes before the way of reception; the barometric rate comes
/// before the geometric one; a speed is not negative.
pub proof fn law_contacts_say_what_records_say(a: Aircraft, trig: Trig, c: Contact)
    requires
        adsb::is_contact(a),
        adsb::describes(a, trig, c),
    ensures
        a.hex matches Some(hex) && c.id@ == text::lowered(text::trimmed(hex@)),
        match a.flight {
            Some(f) if text::trimmed(f@).len() > 0 => c.label@ == text::trimmed(f@),
            _ => c.label@ == c.id@,
        },
        match (a.t, a.kind) {
            (Some(t), _) => c.kind@ == t@,
            (None, Some(k)) => c.kind@ == k@,
            _ => c.kind@.len() == 0,
        },
        match a.squawk {
            Some(s) => c.squawk@ == s@,
            None => c.squawk@.len() == 0,
        },
        a.lat == Some(c.geo.lat_deg),
        a.lon == Some(c.geo.lon_deg),
        adsb::height(a) == Some((c.geo.alt_m, c.on_ground)),
        match a.gs {
            Some(v) if v.finite() && v.value() >= 0 => c.gs_kt == a.gs,
            _ => c.gs_kt is None,
        },
        taken(a.track, c.track_deg),
        a.baro_rate is Some ==> taken(a.baro_rate, c.vrate_fpm),
        a.baro_rate is None ==> taken(a.geom_rate, c.vrate_fpm),
        c.age_s == adsb::credited_age(a.seen_pos),
        c.trig == trig,
{
    facts::lemma_units_order(0, 0);
}

/// A contact is an emergency exactly if its record declares one, of whatever kind but
/// "none", or squawks 7500, 7600 or 7700.
pub proof fn law_emergencies(a: Aircraft, trig: Trig, c: Contact)
    requires
        adsb::describes(a, trig, c),
    ensures
        ({
            let declared = match a.emergency {
                Some(e) => !(e@.len() == 0 || e@ == seq!['n', 'o', 'n', 'e']),
                None => false,
            };
            let squawked = match a.squawk {
                Some(s) => s@.len() == 4 && s@[0] == '7' && ('5' <= s@[1] <= '7') && s@[2] == '0'
                    && s@[3] == '0',
                None => false,
            };
            c.emergency <==> declared || squawked
        }),
{
    reveal_strlit("none");
    reveal_strlit("7500");
    reveal_strlit("7600");
    reveal_strlit("7700");
    assert("none"@ =~= seq!['n', 'o', 'n', 'e']);
    assert("7500"@ =~= seq!['7', '5', '0', '0']);
    assert("7600"@ =~= seq!['7', '6', '0', '0']);
    assert("7700"@ =~= seq!['7', '7', '0', '0']);
    if let Some(s) = a.squawk {
        if s@.len() == 4 && s@[0] == '7' && ('5' <= s@[1] <= '7') && s@[2] == '0' && s@[3] == '0' {
            assert(s@ =~= seq!['7', '5', '0', '0'] || s@ =~= seq!['7', '6', '0', '0'] || s@
                =~= seq!['7', '7', '0', '0']);
        }
    }
}

/// A chunk is refused exactly if the body would pass its limit with it, and is otherwise put
/// at the end.
pub proof fn law_chunks_are_put_at_the_end(buf: Seq<u8>, chunk: Seq<u8>, limit: nat)
    ensures
        match adsb::joined(buf, chunk, limit) {
            Ok(all) => {
                &&& all.len() == buf.len() + chunk.len() <= limit
                &&& forall|i: int| 0 <= i < buf.len() ==> #[trigger] all[i] == buf[i]
                &&& forall|i: int|
                    buf.len() <= i < all.len() ==> #[trigger] all[i] == chunk[i - buf.len()]
            },
            Err(seen) => seen == buf.len() + chunk.len() && seen > limit,
        },
{
}

/// The records of a response that are contacts are all kept, in their order, and no others.
pub proof fn law_every_contact_is_kept(records: Seq<(Aircraft, Trig)>, i: int, j: int) -> (pair: (
    int,
    int,
))
    requires
        0 <= i < j < records.len(),
        adsb::is_contact(records[i].0),
        adsb::is_contact(records[j].0),
    ensures
        ({
            let kept = adsb::contact_records(records);
            let (p, q) = pair;
            0 <= p < q < kept.len() && kept[p] == records[i] && kept[q] == records[j]
        }),
{
    let keep = |r: (Aircraft, Trig)| adsb::is_contact(r.0);
    assert(keep(records[i]) && keep(records[j]));
    crate::laws::listing::lemma_kept_in_order(records, keep, i, j)
}

} // verus!
