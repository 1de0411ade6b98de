//! Assembly of the catalogue from the entries a tree decoder yields.
//!
//! The tree decoder is pulled for one `(key, record)` pair at a time. Each
//! pull either yields a pair, fails for that one entry, or reports the end of
//! the input. The assembly never aborts on a failed entry and never reports
//! which entries it dropped: the catalogue simply holds every entry whose key
//! carries an identifier, the later of two entries with one identifier
//! replacing the earlier.

use vstd::prelude::*;
use vstd::std_specs::cmp::OrdSpec;
use vstd::std_specs::iter::IteratorSpec;
use std::collections::BTreeMap;
use crate::ident::{extract_identifier, identifier_of};
use crate::schema::Entry;

verus! {

/// The catalogue: every decoded entry under its numeric identifier, in
/// ascending order of identifier.
#[derive(Debug, Clone)]
pub struct PvDb {
    pub pvs: BTreeMap<u32, Entry>,
}

impl View for PvDb {
    type V = Map<u32, Entry>;

    open spec fn view(&self) -> Map<u32, Entry> {
        self.pvs@
    }
}

impl PvDb {
    /// The identifiers of the catalogue, in ascending order.
    pub fn identifiers(&self) -> (ids: Vec<u32>)
        ensures
            ids@.to_set() == self@.dom(),
            forall|i: int, j: int| 0 <= i < j < ids.len() ==> ids[i] < ids[j],
    {
        broadcast use vstd::laws_cmp::group_laws_cmp;
        broadcast use vstd::std_specs::btree::group_btree_axioms;

        let mut ids: Vec<u32> = Vec::new();
        for id in it: self.pvs.keys()
            invariant
                ids.len() == it.index(),
                forall|k: int| 0 <= k < ids.len() ==> ids[k] == *it.seq()[k],
        {
            ids.push(*id);
        }
        proof {
            let keys = self.pvs.keys().remaining();
            assert(ids@ =~= keys.unref());
            assert(vstd::laws_cmp::obeys_cmp::<&u32>());
            assert forall|i: int, j: int| 0 <= i < j < ids.len() implies ids[i] < ids[j] by {
                let a: &u32 = keys[i];
                let b: &u32 = keys[j];
                assert(OrdSpec::cmp_spec(&a, &b) is Less);
            }
        }
        ids
    }
}

/// What the tree decoder answers when asked for the next entry.
#[derive(Debug, Clone)]
pub enum Pulled {
    /// A map key and the record decoded under it.
    Entry(String, Entry),
    /// This one entry could not be decoded; the decoder can go on.
    Failed,
    /// The input holds no further entry.
    End,
}

/// What the driver of the tree decoder does after a pull was visited.
#[derive(Debug, Clone, Copy, PartialEq, Eq)]
pub enum Advance {
    /// Ask the decoder for the next entry.
    Pull,
    /// The catalogue is complete.
    Stop,
}

/// The catalogue after one pull was visited.
pub open spec fn visited(catalogue: Map<u32, Entry>, pulled: Pulled) -> Map<u32, Entry> {
    match pulled {
        Pulled::Entry(key, entry) => match identifier_of(key@) {
            Some(id) => catalogue.insert(id, entry),
            None => catalogue,
        },
        Pulled::Failed => catalogue,
        Pulled::End => catalogue,
    }
}

/// The catalogue that results from visiting `pulls` in order, starting from
/// `catalogue` and stopping at the first `End`.
pub open spec fn assembled(catalogue: Map<u32, Entry>, pulls: Seq<Pulled>) -> Map<u32, Entry>
    decreases pulls.len(),
{
    if pulls.len() == 0 || pulls.first() is End {
        catalogue
    } else {
        assembled(visited(catalogue, pulls.first()), pulls.drop_first())
    }
}

/// The catalogue that a whole stream of pulls decodes to.
pub open spec fn catalogue_of(pulls: Seq<Pulled>) -> Map<u32, Entry> {
    assembled(Map::empty(), pulls)
}

/// Accumulates the catalogue while a tree decoder is driven.
pub struct PvDbVisitor {
    pvs: BTreeMap<u32, Entry>,
}

impl View for PvDbVisitor {
    type V = Map<u32, Entry>;

    closed spec fn view(&self) -> Map<u32, Entry> {
        self.pvs@
    }
}

impl PvDbVisitor {
    /// A visitor that has seen no entry.
    pub fn new() -> (visitor: PvDbVisitor)
        ensures
            visitor@ == Map::<u32, Entry>::empty(),
    {
        PvDbVisitor { pvs: BTreeMap::new() }
    }

    /// Takes in the answer to one pull and says whether to pull again.
    ///
    /// An entry whose key carries an identifier is stored under it, replacing
    /// any entry stored there before. An entry with any other key and a
    /// failed entry leave the catalogue as it is. Only the end of the input
    /// stops the assembly.
    pub fn visit(&mut self, pulled: Pulled) -> (advance: Advance)
        ensures
            final(self)@ == visited(old(self)@, pulled),
            advance == if pulled is End {
                Advance::Stop
            } else {
                Advance::Pull
            },
    {
        broadcast use vstd::laws_cmp::group_laws_cmp;

        match pulled {
            Pulled::Entry(key, entry) => {
                match extract_identifier(key.as_str()) {
                    Some(id) => {
                        self.pvs.insert(id, entry);
                    },
                    None => {},
                }
                Advance::Pull
            },
            Pulled::Failed => Advance::Pull,
            Pulled::End => Advance::Stop,
        }
    }

    /// Hands out the catalogue assembled so far.
    pub fn finish(self) -> (db: PvDb)
        ensures
            db@ == self@,
    {
        PvDb { pvs: self.pvs }
    }

    /// Assembles the catalogue from a recorded stream of pulls.
    ///
    /// The pulls are visited in order up to the first `End`; what follows it
    /// is never looked at.
    pub fn visit_map(pulls: Vec<Pulled>) -> (db: PvDb)
        ensures
            db@ == catalogue_of(pulls@),
    {
        let mut visitor = PvDbVisitor::new();
        let mut stopped = false;
        assert(pulls@.skip(0) == pulls@);
        for pulled in it: pulls
            invariant
                stopped ==> visitor@ == catalogue_of(it.seq()),
                !stopped ==> assembled(visitor@, it.seq().skip(it.index() as int)) == catalogue_of(
                    it.seq(),
                ),
        {
            if !stopped {
                proof {
                    let rest = it.seq().skip(it.index() as int);
                    assert(rest.first() == pulled);
                    assert(rest.drop_first() == it.seq().skip(it.index() + 1));
                }
                match visitor.visit(pulled) {
                    Advance::Pull => {},
                    Advance::Stop => {
                        stopped = true;
                    },
                }
            }
        }
        visitor.finish()
    }
}

/// Whether the pull at `at` is reached and yields an entry for `id`: no
/// `End` stands before it, and its key carries `id`.
pub open spec fn yields(pulls: Seq<Pulled>, at: int, id: u32) -> bool {
    &&& 0 <= at < pulls.len()
    &&& forall|k: int| 0 <= k < at ==> !(#[trigger] pulls[k] is End)
    &&& pulls[at] matches Pulled::Entry(key, _) && identifier_of(key@) == Some(id)
}

/// Whether a pull leaves every catalogue as it is and lets the assembly go
/// on: a failed entry, or an entry whose key carries no identifier.
pub open spec fn is_dropped(pulled: Pulled) -> bool {
    match pulled {
        Pulled::Entry(key, _) => identifier_of(key@) is None,
        Pulled::Failed => true,
        Pulled::End => false,
    }
}

/// Past a first pull that is no `End`, the pulls yield what the rest of
/// them yields one place earlier.
proof fn lemma_yields_shift(pulls: Seq<Pulled>, at: int, id: u32)
    requires
        pulls.len() > 0,
        !(pulls.first() is End),
        0 <= at,
    ensures
        yields(pulls, at + 1, id) <==> yields(pulls.drop_first(), at, id),
{
    let rest = pulls.drop_first();
    if yields(pulls, at + 1, id) {
        assert forall|k: int| 0 <= k < at implies !(#[trigger] rest[k] is End) by {
            assert(rest[k] == pulls[k + 1]);
        }
        assert(rest[at] == pulls[at + 1]);
    }
    if yields(rest, at, id) {
        assert forall|k: int| 0 <= k < at + 1 implies !(#[trigger] pulls[k] is End) by {
            if k > 0 {
                assert(pulls[k] == rest[k - 1]);
            }
        }
        assert(rest[at] == pulls[at + 1]);
    }
}

/// An identifier that no pull yields is in the catalogue as it was before,
/// with the record it had before.
proof fn lemma_unyielded_is_kept(start: Map<u32, Entry>, pulls: Seq<Pulled>, id: u32)
    requires
        forall|at: int| !yields(pulls, at, id),
    ensures
        assembled(start, pulls).contains_key(id) == start.contains_key(id),
        start.contains_key(id) ==> assembled(start, pulls)[id] == start[id],
    decreases pulls.len(),
{
    if pulls.len() > 0 && !(pulls.first() is End) {
        let rest = pulls.drop_first();
        assert(!yields(pulls, 0, id));
        assert forall|at: int| !yields(rest, at, id) by {
            if at >= 0 {
                lemma_yields_shift(pulls, at, id);
            }
        }
        lemma_unyielded_is_kept(visited(start, pulls.first()), rest, id);
    }
}

/// The catalogue holds, under each identifier, the record of the last pull
/// that yields an entry for it.
proof fn lemma_last_yield_is_held(start: Map<u32, Entry>, pulls: Seq<Pulled>, at: int, id: u32)
    requires
        yields(pulls, at, id),
        forall|later: int| at < later ==> !yields(pulls, later, id),
    ensures
        assembled(start, pulls).contains_key(id),
        assembled(start, pulls)[id] == pulls[at]->Entry_1,
    decreases at,
{
    let rest = pulls.drop_first();
    if at == 0 {
        assert forall|later: int| !yields(rest, later, id) by {
            if later >= 0 {
                lemma_yields_shift(pulls, later, id);
            }
        }
        lemma_unyielded_is_kept(visited(start, pulls.first()), rest, id);
    } else {
        assert(!(pulls[0] is End));
        lemma_yields_shift(pulls, at - 1, id);
        assert forall|later: int| at - 1 < later implies !yields(rest, later, id) by {
            lemma_yields_shift(pulls, later, id);
        }
        lemma_last_yield_is_held(visited(start, pulls.first()), rest, at - 1, id);
    }
}

/// Among the pulls that yield an entry for `id` from `at` on, one is the
/// last.
proof fn lemma_last_yield(pulls: Seq<Pulled>, at: int, id: u32) -> (last: int)
    requires
        yields(pulls, at, id),
    ensures
        at <= last,
        yields(pulls, last, id),
        forall|later: int| last < later ==> !yields(pulls, later, id),
    decreases pulls.len() - at,
{
    if exists|later: int| at < later && yields(pulls, later, id) {
        let next = choose|later: int| at < later && yields(pulls, later, id);
        lemma_last_yield(pulls, next, id)
    } else {
        at
    }
}

/// An identifier is in the catalogue exactly when some pull before the end
/// of the input yields an entry for it. So every identifier of the
/// catalogue comes from a key of the entry pattern.
pub proof fn lemma_catalogue_holds_what_was_yielded(pulls: Seq<Pulled>, id: u32)
    ensures
        catalogue_of(pulls).contains_key(id) <==> exists|at: int| yields(pulls, at, id),
{
    if exists|at: int| yields(pulls, at, id) {
        let at = choose|at: int| yields(pulls, at, id);
        let last = lemma_last_yield(pulls, at, id);
        lemma_last_yield_is_held(Map::empty(), pulls, last, id);
    } else {
        lemma_unyielded_is_kept(Map::empty(), pulls, id);
    }
}

/// Of the entries decoded for one identifier, the last one wins.
pub proof fn lemma_last_entry_wins(pulls: Seq<Pulled>, at: int, id: u32)
    requires
        yields(pulls, at, id),
        forall|later: int| at < later ==> !yields(pulls, later, id),
    ensures
        catalogue_of(pulls).contains_key(id),
        catalogue_of(pulls)[id] == pulls[at]->Entry_1,
{
    lemma_last_yield_is_held(Map::empty(), pulls, at, id);
}

proof fn lemma_dropped_pull(start: Map<u32, Entry>, pulls: Seq<Pulled>, at: int, dropped: Pulled)
    requires
        0 <= at <= pulls.len(),
        is_dropped(dropped),
    ensures
        assembled(start, pulls.insert(at, dropped)) == assembled(start, pulls),
    decreases at,
{
    let more = pulls.insert(at, dropped);
    if at == 0 {
        assert(more.first() == dropped);
        assert(more.drop_first() =~= pulls);
    } else {
        assert(more.first() == pulls.first());
        assert(more.drop_first() =~= pulls.drop_first().insert(at - 1, dropped));
        if !(pulls.first() is End) {
            lemma_dropped_pull(visited(start, pulls.first()), pulls.drop_first(), at - 1, dropped);
        }
    }
}

/// One entry that fails to decode, or whose key carries no identifier,
/// costs the catalogue nothing but that entry: the stream with it and the
/// stream without it decode to the same catalogue.
pub proof fn lemma_dropped_pull_changes_nothing(pulls: Seq<Pulled>, at: int, dropped: Pulled)
    requires
        0 <= at <= pulls.len(),
        is_dropped(dropped),
    ensures
        catalogue_of(pulls.insert(at, dropped)) == catalogue_of(pulls),
{
    lemma_dropped_pull(Map::empty(), pulls, at, dropped);
}

/// Whether two pulls say the same: both failed, both are the end, or both
/// are entries with the same key text and the same record.
pub open spec fn same_pull(a: Pulled, b: Pulled) -> bool {
    match (a, b) {
        (Pulled::Entry(key_a, entry_a), Pulled::Entry(key_b, entry_b)) => key_a@ == key_b@
            && entry_a == entry_b,
        (Pulled::Failed, Pulled::Failed) => true,
        (Pulled::End, Pulled::End) => true,
        _ => false,
    }
}

proof fn lemma_same_pulls(start: Map<u32, Entry>, a: Seq<Pulled>, b: Seq<Pulled>)
    requires
        a.len() == b.len(),
        forall|i: int| 0 <= i < a.len() ==> same_pull(#[trigger] a[i], b[i]),
    ensures
        assembled(start, a) == assembled(start, b),
    decreases a.len(),
{
    if a.len() > 0 {
        assert(same_pull(a[0], b[0]));
        if !(a.first() is End) {
            assert forall|i: int| 0 <= i < a.len() - 1 implies same_pull(
                #[trigger] a.drop_first()[i],
                b.drop_first()[i],
            ) by {
                assert(same_pull(a[i + 1], b[i + 1]));
            }
            lemma_same_pulls(visited(start, a.first()), a.drop_first(), b.drop_first());
        }
    }
}

/// Decoding is repeatable: two streams of pulls that say the same, pull by
/// pull, decode to catalogues with the same identifiers and the same
/// records.
pub proof fn lemma_same_pulls_same_catalogue(a: Seq<Pulled>, b: Seq<Pulled>)
    requires
        a.len() == b.len(),
        forall|i: int| 0 <= i < a.len() ==> same_pull(#[trigger] a[i], b[i]),
    ensures
        catalogue_of(a) == catalogue_of(b),
{
    lemma_same_pulls(Map::empty(), a, b);
}

} // verus!
