//! What does not matter about how contacts come in batches: where a batch is cut, and the
//! order of contacts that are not of one identity.
use crate::clock::Instant;
use crate::geo::Frame;
use crate::ingest::Contact;
use crate::track;
use crate::track::{Outcome, Track, Tuning};
use vstd::prelude::*;

verus! {

/// Two batches, one after the other, make of the tracks what they would as one: the same
/// tracks, and the same counts together.
pub proof fn law_a_batch_may_be_cut(
    tracks: Seq<Track>,
    p: Seq<Contact>,
    q: Seq<Contact>,
    tuning: Tuning,
    frame: Frame,
    received: Instant,
    what: Outcome,
)
    ensures
        ({
            let between = track::folded(tracks, p, tuning, frame, received);
            &&& track::folded(tracks, p + q, tuning, frame, received) == track::folded(
                between,
                q,
                tuning,
                frame,
                received,
            )
            &&& track::tally(tracks, p + q, tuning, frame, received, what) == track::tally(
                tracks,
                p,
                tuning,
                frame,
                received,
                what,
            ) + track::tally(between, q, tuning, frame, received, what)
        }),
    decreases q.len(),
{
    if q.len() == 0 {
        assert(p + q =~= p);
    } else {
        assert((p + q).drop_last() =~= p + q.drop_last());
        assert((p + q).last() == q.last());
        law_a_batch_may_be_cut(tracks, p, q.drop_last(), tuning, frame, received, what);
    }
}

/// The track of this identity, if there is one.
pub open spec fn held(tracks: Seq<Track>, id: Seq<char>) -> Option<Track> {
    let i = track::place(tracks, id);
    if i < tracks.len() {
        Some(tracks[i as int])
    } else {
        None
    }
}

/// What a contact makes of the track of its identity.
pub open spec fn made(
    was: Option<Track>,
    c: Contact,
    tuning: Tuning,
    frame: Frame,
    received: Instant,
) -> Track {
    let pos = track::plot(c, frame);
    match was {
        Some(t) => t.absorbed(c, pos, received, tuning.gate_sigma),
        None => Track::initiated(c, pos, received, tuning.q, tuning.r),
    }
}

/// A contact changes the track of its identity and no other, and what becomes of it depends
/// on that track alone.
pub proof fn lemma_one_contact(
    tracks: Seq<Track>,
    c: Contact,
    tuning: Tuning,
    frame: Frame,
    received: Instant,
    id: Seq<char>,
)
    ensures
        held(track::associated(tracks, c, tuning, frame, received), id) == if id == c.id@ {
            Some(made(held(tracks, c.id@), c, tuning, frame, received))
        } else {
            held(tracks, id)
        },
{
    reveal(track::associated);
    let after = track::associated(tracks, c, tuning, frame, received);
    let (i, k) = (track::place(tracks, c.id@) as int, track::place(tracks, id) as int);
    track::lemma_place_found(tracks, c.id@);
    track::lemma_place_found(tracks, id);
    assert forall|j: int| 0 <= j < tracks.len() implies (#[trigger] after[j]).id@
        == tracks[j].id@ by {
        if i < tracks.len() && j == i {
        }
    }
    if id == c.id@ {
        assert(after[i].id@ == id);
        track::lemma_place(after, id, i);
    } else if k < tracks.len() {
        track::lemma_place(after, id, k);
    } else {
        track::lemma_place(after, id, after.len() as int);
    }
}

proof fn lemma_outcome(
    tracks: Seq<Track>,
    other: Seq<Track>,
    c: Contact,
    tuning: Tuning,
    frame: Frame,
    received: Instant,
)
    requires
        held(tracks, c.id@) == held(other, c.id@),
    ensures
        track::outcome(tracks, c, tuning, frame, received) == track::outcome(
            other,
            c,
            tuning,
            frame,
            received,
        ),
{
    reveal(track::outcome);
}

/// No two contacts have the same identity.
pub open spec fn distinct(contacts: Seq<Contact>) -> bool {
    forall|i: int, j: int|
        0 <= i < j < contacts.len() ==> (#[trigger] contacts[i]).id@ != (
        #[trigger] contacts[j]).id@
}

/// What becomes of a contact that meets the tracks first.
pub open spec fn comes_to(
    tracks: Seq<Track>,
    tuning: Tuning,
    frame: Frame,
    received: Instant,
    what: Outcome,
) -> spec_fn(Contact) -> bool {
    |c: Contact| track::outcome(tracks, c, tuning, frame, received) == what
}

/// Contacts of different identities do not meet.
pub proof fn lemma_apart(
    tracks: Seq<Track>,
    contacts: Seq<Contact>,
    tuning: Tuning,
    frame: Frame,
    received: Instant,
    what: Outcome,
)
    requires
        distinct(contacts),
    ensures
        ({
            let after = track::folded(tracks, contacts, tuning, frame, received);
            &&& forall|i: int|
                0 <= i < contacts.len() ==> held(after, (#[trigger] contacts[i]).id@) == Some(
                    made(held(tracks, contacts[i].id@), contacts[i], tuning, frame, received),
                )
            &&& forall|id: Seq<char>|
                (forall|i: int| 0 <= i < contacts.len() ==> (#[trigger] contacts[i]).id@ != id)
                    ==> #[trigger] held(after, id) == held(tracks, id)
            &&& track::tally(tracks, contacts, tuning, frame, received, what) == contacts.filter(
                comes_to(tracks, tuning, frame, received, what),
            ).len()
        }),
    decreases contacts.len(),
{
    reveal(Seq::filter);
    if contacts.len() > 0 {
        let (rest, c) = (contacts.drop_last(), contacts.last());
        let before = track::folded(tracks, rest, tuning, frame, received);
        let after = track::folded(tracks, contacts, tuning, frame, received);
        assert(distinct(rest));
        lemma_apart(tracks, rest, tuning, frame, received, what);
        assert forall|i: int| 0 <= i < rest.len() implies (#[trigger] rest[i]).id@ != c.id@ by {
            assert(contacts[i].id@ != contacts[contacts.len() - 1].id@);
        }
        assert(held(before, c.id@) == held(tracks, c.id@));
        lemma_outcome(before, tracks, c, tuning, frame, received);
        assert forall|i: int| 0 <= i < contacts.len() implies held(
            after,
            (#[trigger] contacts[i]).id@,
        ) == Some(made(held(tracks, contacts[i].id@), contacts[i], tuning, frame, received)) by {
            lemma_one_contact(before, c, tuning, frame, received, contacts[i].id@);
            if i < rest.len() {
                assert(rest[i] == contacts[i]);
            }
        }
        assert forall|id: Seq<char>|
            (forall|i: int|
                0 <= i < contacts.len() ==> (#[trigger] contacts[i]).id@
                    != id) implies #[trigger] held(after, id) == held(tracks, id) by {
            lemma_one_contact(before, c, tuning, frame, received, id);
            assert(contacts[contacts.len() - 1].id@ != id);
            assert forall|i: int| 0 <= i < rest.len() implies (#[trigger] rest[i]).id@ != id by {
                assert(contacts[i].id@ != id);
            }
        }
    }
}

proof fn lemma_filter_unique(s: Seq<Contact>, keep: spec_fn(Contact) -> bool)
    requires
        distinct(s),
    ensures
        s.filter(keep).no_duplicates(),
    decreases s.len(),
{
    broadcast use Seq::lemma_filter_contains_rev;

    reveal(Seq::filter);
    if s.len() > 0 {
        let (rest, last) = (s.drop_last(), s.last());
        assert(distinct(rest));
        lemma_filter_unique(rest, keep);
        let old = rest.filter(keep);
        assert forall|i: int| 0 <= i < old.len() implies #[trigger] old[i] != last by {
            assert(old.contains(old[i]));
            assert(rest.contains(old[i]));
            let j = choose|j: int| 0 <= j < rest.len() && rest[j] == old[i];
            assert(s[j].id@ != s[s.len() - 1].id@);
        }
    }
}

/// The order of contacts with different identities does not matter: two batches of the same
/// contacts leave every identity the same track, and come to the same counts.
pub proof fn law_order_does_not_matter(
    tracks: Seq<Track>,
    p: Seq<Contact>,
    q: Seq<Contact>,
    tuning: Tuning,
    frame: Frame,
    received: Instant,
    id: Seq<char>,
    what: Outcome,
)
    requires
        distinct(p),
        distinct(q),
        forall|c: Contact| #[trigger] p.contains(c) <==> q.contains(c),
    ensures
        held(track::folded(tracks, p, tuning, frame, received), id) == held(
            track::folded(tracks, q, tuning, frame, received),
            id,
        ),
        track::tally(tracks, p, tuning, frame, received, what) == track::tally(
            tracks,
            q,
            tuning,
            frame,
            received,
            what,
        ),
{
    broadcast use {Seq::lemma_filter_contains_rev, vstd::seq_lib::group_filter_ensures};

    lemma_apart(tracks, p, tuning, frame, received, what);
    lemma_apart(tracks, q, tuning, frame, received, what);
    if exists|i: int| 0 <= i < p.len() && (#[trigger] p[i]).id@ == id {
        let i = choose|i: int| 0 <= i < p.len() && (#[trigger] p[i]).id@ == id;
        assert(p.contains(p[i]));
        let j = choose|j: int| 0 <= j < q.len() && q[j] == p[i];
        assert(q[j].id@ == id);
    } else {
        assert forall|j: int| 0 <= j < q.len() implies (#[trigger] q[j]).id@ != id by {
            assert(q.contains(q[j]));
            assert(p.contains(q[j]));
            let i = choose|i: int| 0 <= i < p.len() && p[i] == q[j];
            assert(p[i].id@ != id);
        }
    }
    let keep = comes_to(tracks, tuning, frame, received, what);
    let (a, b) = (p.filter(keep), q.filter(keep));
    lemma_filter_unique(p, keep);
    lemma_filter_unique(q, keep);
    assert forall|c: Contact| a.contains(c) == b.contains(c) by {
        if a.contains(c) {
            lemma_kept(p, q, keep, c);
        }
        if b.contains(c) {
            assert(p.contains(c) <==> q.contains(c));
            lemma_kept(q, p, keep, c);
        }
    }
    a.unique_seq_to_set();
    b.unique_seq_to_set();
    assert(a.to_set() =~= b.to_set());
}

proof fn lemma_kept(p: Seq<Contact>, q: Seq<Contact>, keep: spec_fn(Contact) -> bool, c: Contact)
    requires
        p.contains(c) ==> q.contains(c),
        p.filter(keep).contains(c),
    ensures
        q.filter(keep).contains(c),
{
    broadcast use {Seq::lemma_filter_contains_rev, vstd::seq_lib::group_filter_ensures};

    let k = choose|k: int| 0 <= k < p.filter(keep).len() && p.filter(keep)[k] == c;
    assert(keep(p.filter(keep)[k]));
    assert(p.contains(c));
    let j = choose|j: int| 0 <= j < q.len() && q[j] == c;
    assert(keep(q[j]));
    assert(q.filter(keep).contains(q[j]));
}

} // verus!
