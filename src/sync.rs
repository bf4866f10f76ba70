//! The walk that decides which objects a fetch or a push has to copy.
//!
//! From a starting hash the walk takes hashes off a stack. A hash already
//! visited is skipped. One the destination already holds is taken to come
//! with all of its ancestors, and its references are not followed; this
//! holds only while no earlier transfer was cut short. A hash that the
//! source holds as a loose object is copied and its references are pushed.
//! Any other is in a pack, and then every pack is copied at the end.

use vstd::prelude::*;
use crate::objects::strings_view;
use crate::repo::{loose_location, pack_location, Repository};

verus! {

/// Whether a repository already holds an object or a pack file.
pub trait HasObject {
    /// The objects that the repository holds.
    spec fn holds(&self, hash: Seq<char>) -> bool;

    /// The pack files that the repository holds.
    spec fn holds_pack(&self, name: Seq<char>) -> bool;

    /// Whether the repository holds the object `hash`.
    fn has_object(&self, hash: &str) -> (r: bool)
        ensures
            r == self.holds(hash@),
    ;

    /// Whether the repository holds the pack file `name`.
    fn has_pack_file(&self, name: &str) -> (r: bool)
        ensures
            r == self.holds_pack(name@),
    ;
}

/// The loose objects of a repository, and the hashes each refers to.
pub trait LooseObjects {
    /// The loose objects, each with the hashes it refers to.
    spec fn listing(&self) -> Seq<(Seq<char>, Seq<Seq<char>>)>;

    /// The references of the loose object `hash`; `None` where the
    /// repository does not hold it as a loose object.
    fn loose_references(&self, hash: &str) -> (r: Option<Vec<String>>)
        ensures
            match r {
                Some(v) => lookup(self.listing(), hash@) == Some(strings_view(v@)),
                None => lookup(self.listing(), hash@) is None,
            },
    ;
}

/// What the walk does with a hash: the destination holds it, or the source
/// holds it as a loose object, or else it is in a pack.
pub open spec fn outcome_for(at_destination: bool, loose: bool) -> Outcome {
    if at_destination {
        Outcome::AlreadyPresent
    } else if loose {
        Outcome::Copied
    } else {
        Outcome::NotLoose
    }
}

/// What the walk did with a hash.
#[derive(PartialEq, Eq, Structural, Debug, Clone, Copy)]
pub enum Outcome {
    /// The destination holds it; its references were not followed.
    AlreadyPresent,
    /// It was a loose object of the source; its references were followed.
    Copied,
    /// The source does not hold it as a loose object: it is in a pack.
    NotLoose,
}

/// One hash that the walk visited, and what it did with it.
pub struct Visit {
    pub hash: String,
    pub outcome: Outcome,
}

impl View for Visit {
    type V = (Seq<char>, Outcome);

    open spec fn view(&self) -> (Seq<char>, Outcome) {
        (self.hash@, self.outcome)
    }
}

pub open spec fn visits_view(visits: Seq<Visit>) -> Seq<(Seq<char>, Outcome)> {
    visits.map_values(|v: Visit| v@)
}

pub open spec fn was_visited(visits: Seq<(Seq<char>, Outcome)>, h: Seq<char>) -> bool {
    exists|i: int| 0 <= i < visits.len() && (#[trigger] visits[i]).0 == h
}

/// No hash is visited twice.
pub open spec fn visited_once(visits: Seq<(Seq<char>, Outcome)>) -> bool {
    forall|i: int, j: int|
        0 <= i < visits.len() && 0 <= j < visits.len() && i != j ==> (#[trigger] visits[i]).0
            != (#[trigger] visits[j]).0
}

pub open spec fn visited_hashes(visits: Seq<(Seq<char>, Outcome)>) -> Set<Seq<char>> {
    visits.map_values(|v: (Seq<char>, Outcome)| v.0).to_set()
}

/// Whether some hash ended up in a pack.
pub open spec fn any_not_loose(visits: Seq<(Seq<char>, Outcome)>) -> bool {
    exists|i: int| 0 <= i < visits.len() && (#[trigger] visits[i]).1 == Outcome::NotLoose
}

/// The state of one walk: the hashes still to look at, and those visited.
/// The visited hashes are a list in the order of their visits, rather than a
/// `HashSet`: vstd's specification of a set of `String`s is too weak to
/// prove membership, and the order is what the walk reports.
pub struct Traversal {
    pending: Vec<String>,
    visits: Vec<Visit>,
}

impl Traversal {
    /// The hashes still to look at; the last is taken first.
    pub closed spec fn pending(&self) -> Seq<Seq<char>> {
        strings_view(self.pending@)
    }

    /// The hashes visited, in the order of their visits.
    pub closed spec fn visited(&self) -> Seq<(Seq<char>, Outcome)> {
        visits_view(self.visits@)
    }

    pub open spec fn wf(&self) -> bool {
        visited_once(self.visited())
    }

    /// A walk from `start`.
    pub fn new(start: &str) -> (r: Self)
        ensures
            r.wf(),
            r.pending() == seq![start@],
            r.visited() == Seq::<(Seq<char>, Outcome)>::empty(),
    {
        let mut pending: Vec<String> = Vec::new();
        pending.push(start.to_owned());
        let visits: Vec<Visit> = Vec::new();
        let r = Traversal { pending, visits };
        assert(r.pending() =~= seq![start@]);
        assert(r.visited() =~= Seq::<(Seq<char>, Outcome)>::empty());
        r
    }

    /// Whether `hash` was visited.
    pub fn is_visited(&self, hash: &String) -> (r: bool)
        ensures
            r == was_visited(self.visited(), hash@),
    {
        let mut i: usize = 0;
        while i < self.visits.len()
            invariant
                i <= self.visits@.len(),
                forall|j: int| 0 <= j < i ==> self.visited()[j].0 != hash@,
            decreases self.visits@.len() - i,
        {
            if self.visits[i].hash == *hash {
                assert(self.visited()[i as int].0 == hash@);
                return true;
            }
            i = i + 1;
        }
        false
    }

    /// Takes hashes off the stack until one that was not visited, and gives
    /// it; `None` once the stack is empty.
    pub fn next_hash(&mut self) -> (r: Option<String>)
        ensures
            final(self).visited() == old(self).visited(),
            final(self).pending() == old(self).pending().subrange(
                0,
                final(self).pending().len() as int,
            ),
            r is None ==> final(self).pending().len() == 0,
            r matches Some(h) ==> final(self).pending().len() < old(self).pending().len()
                && old(self).pending()[final(self).pending().len() as int] == h@
                && !was_visited(old(self).visited(), h@),
            forall|j: int|
                final(self).pending().len() + (if r is Some { 1int } else { 0int }) <= j < old(
                    self,
                ).pending().len() ==> was_visited(old(self).visited(), #[trigger] old(
                    self,
                ).pending()[j]),
    {
        let ghost start = self.pending();
        while self.pending.len() > 0
            invariant
                self.visited() == old(self).visited(),
                start == old(self).pending(),
                self.pending().len() <= start.len(),
                self.pending() == start.subrange(0, self.pending().len() as int),
                forall|j: int|
                    self.pending().len() <= j < start.len() ==> was_visited(
                        self.visited(),
                        #[trigger] start[j],
                    ),
            decreases self.pending@.len(),
        {
            let ghost before = self.pending@;
            assert(strings_view(before) == start.subrange(0, before.len() as int));
            let h = self.pending.pop().unwrap();
            assert(h == before[before.len() - 1]);
            assert(strings_view(before)[before.len() - 1] == h@);
            assert(self.pending@ =~= before.subrange(0, before.len() - 1));
            assert(self.pending() =~= start.subrange(0, self.pending().len() as int));
            assert(start[self.pending().len() as int] == h@);
            if !self.is_visited(&h) {
                return Some(h);
            }
        }
        None
    }

    /// Records the visit of `hash`. For a copied object its references are
    /// pushed, in order, so that the last is looked at first. A hash that
    /// was visited before is not recorded again.
    fn record(&mut self, hash: String, outcome: Outcome, references: Vec<String>)
        ensures
            old(self).wf() ==> final(self).wf(),
            was_visited(old(self).visited(), hash@) ==> final(self).visited() == old(
                self,
            ).visited() && final(self).pending() == old(self).pending(),
            !was_visited(old(self).visited(), hash@) ==> final(self).visited() == old(
                self,
            ).visited().push((hash@, outcome)),
            !was_visited(old(self).visited(), hash@) ==> final(self).pending() == if outcome
                == Outcome::Copied {
                old(self).pending() + strings_view(references@)
            } else {
                old(self).pending()
            },
    {
        if self.is_visited(&hash) {
            return;
        }
        if outcome == Outcome::Copied {
            let mut i: usize = 0;
            let ghost before = self.pending();
            while i < references.len()
                invariant
                    i <= references@.len(),
                    self.pending() =~= before + strings_view(references@).subrange(0, i as int),
                    self.visits == old(self).visits,
                decreases references@.len() - i,
            {
                let ghost prior = self.pending@;
                self.pending.push(references[i].clone());
                assert(strings_view(self.pending@) =~= strings_view(prior).push(references@[i as int]@));
                i = i + 1;
                assert(self.pending() =~= before + strings_view(references@).subrange(0, i as int));
            }
            assert(strings_view(references@).subrange(0, i as int) =~= strings_view(references@));
        }
        let ghost before_visits = self.visited();
        self.visits.push(Visit { hash, outcome });
        assert(self.visited() =~= before_visits.push((hash@, outcome)));
    }

    /// Records the visit of `hash`: already at the destination, or else a
    /// loose object of the source with the references `loose_refs`, or else
    /// in a pack. The references of a copied object are pushed, in order, so
    /// that the last is looked at first. A hash that was visited before is
    /// not recorded again.
    pub fn visit(&mut self, hash: String, at_destination: bool, loose_refs: Option<Vec<String>>)
        ensures
            old(self).wf() ==> final(self).wf(),
            was_visited(old(self).visited(), hash@) ==> final(self).visited() == old(
                self,
            ).visited() && final(self).pending() == old(self).pending(),
            !was_visited(old(self).visited(), hash@) ==> final(self).visited() == old(
                self,
            ).visited().push((hash@, outcome_for(at_destination, loose_refs is Some))),
            !was_visited(old(self).visited(), hash@) ==> final(self).pending() == match loose_refs {
                Some(v) => if at_destination {
                    old(self).pending()
                } else {
                    old(self).pending() + strings_view(v@)
                },
                None => old(self).pending(),
            },
    {
        let outcome = if at_destination {
            Outcome::AlreadyPresent
        } else if loose_refs.is_some() {
            Outcome::Copied
        } else {
            Outcome::NotLoose
        };
        let references = match loose_refs {
            Some(v) => v,
            None => Vec::new(),
        };
        proof {
            if loose_refs is None {
                assert(strings_view(references@) =~= Seq::<Seq<char>>::empty());
            }
        }
        self.record(hash, outcome, references);
        proof {
            if !at_destination && outcome != Outcome::Copied {
                assert(old(self).pending() + Seq::<Seq<char>>::empty() =~= old(self).pending());
            }
        }
    }

    /// Whether some hash was found in no loose object, so that packs must
    /// be copied.
    pub fn needs_packs(&self) -> (r: bool)
        ensures
            r == any_not_loose(self.visited()),
    {
        let mut i: usize = 0;
        while i < self.visits.len()
            invariant
                i <= self.visits@.len(),
                forall|j: int| 0 <= j < i ==> self.visited()[j].1 != Outcome::NotLoose,
            decreases self.visits@.len() - i,
        {
            if self.visits[i].outcome == Outcome::NotLoose {
                assert(self.visited()[i as int].1 == Outcome::NotLoose);
                return true;
            }
            i = i + 1;
        }
        false
    }

    /// The visits, in order.
    pub fn into_visits(self) -> (r: Vec<Visit>)
        ensures
            visits_view(r@) == self.visited(),
    {
        self.visits
    }
}

} // verus!

verus! {

/// A loose object of a repository, with the hashes it refers to.
pub struct LooseObject {
    pub hash: String,
    pub references: Vec<String>,
}

impl View for LooseObject {
    type V = (Seq<char>, Seq<Seq<char>>);

    open spec fn view(&self) -> (Seq<char>, Seq<Seq<char>>) {
        (self.hash@, strings_view(self.references@))
    }
}

pub open spec fn objects_view(objects: Seq<LooseObject>) -> Seq<(Seq<char>, Seq<Seq<char>>)> {
    objects.map_values(|o: LooseObject| o@)
}

/// The references of the first object listed under `h`.
pub open spec fn lookup(objects: Seq<(Seq<char>, Seq<Seq<char>>)>, h: Seq<char>) -> Option<
    Seq<Seq<char>>,
>
    decreases objects.len(),
{
    if objects.len() == 0 {
        None
    } else if objects[0].0 == h {
        Some(objects[0].1)
    } else {
        lookup(objects.subrange(1, objects.len() as int), h)
    }
}

pub open spec fn object_hashes(objects: Seq<(Seq<char>, Seq<Seq<char>>)>) -> Set<Seq<char>> {
    objects.map_values(|o: (Seq<char>, Seq<Seq<char>>)| o.0).to_set()
}

/// Visit `j` copied an object that refers to `h`.
pub open spec fn refers(
    objects: Seq<(Seq<char>, Seq<Seq<char>>)>,
    visits: Seq<(Seq<char>, Outcome)>,
    j: int,
    h: Seq<char>,
) -> bool {
    &&& 0 <= j < visits.len()
    &&& visits[j].1 == Outcome::Copied
    &&& lookup(objects, visits[j].0) matches Some(refs) && refs.contains(h)
}

/// Visit `i` is of a reference of an object copied at an earlier visit.
pub open spec fn reached_at(
    objects: Seq<(Seq<char>, Seq<Seq<char>>)>,
    visits: Seq<(Seq<char>, Outcome)>,
    i: int,
) -> bool {
    exists|j: int| 0 <= j < i && #[trigger] refers(objects, visits, j, visits[i].0)
}

/// The shape of the walk from `start` over the loose objects `objects`:
/// `start` comes first; no hash comes twice; a hash is copied only if it is
/// listed, and found in no loose object only if it is not; every reference
/// of a copied object is visited; and every hash after the first is a
/// reference of an object copied before it.
pub open spec fn walk_shape(
    objects: Seq<(Seq<char>, Seq<Seq<char>>)>,
    start: Seq<char>,
    visits: Seq<(Seq<char>, Outcome)>,
) -> bool {
    &&& visits.len() > 0
    &&& visits[0].0 == start
    &&& visited_once(visits)
    &&& forall|i: int|
        0 <= i < visits.len() && (#[trigger] visits[i]).1 == Outcome::Copied ==> lookup(
            objects,
            visits[i].0,
        ) is Some
    &&& forall|i: int|
        0 <= i < visits.len() && (#[trigger] visits[i]).1 == Outcome::NotLoose ==> lookup(
            objects,
            visits[i].0,
        ) is None
    &&& forall|j: int, h: Seq<char>| #[trigger]
        refers(objects, visits, j, h) ==> was_visited(visits, h)
    &&& forall|i: int| 0 < i < visits.len() ==> #[trigger] reached_at(objects, visits, i)
}

proof fn lemma_lookup_listed(objects: Seq<(Seq<char>, Seq<Seq<char>>)>, h: Seq<char>)
    ensures
        lookup(objects, h) is Some ==> object_hashes(objects).contains(h),
    decreases objects.len(),
{
    let keys = objects.map_values(|o: (Seq<char>, Seq<Seq<char>>)| o.0);
    if objects.len() > 0 {
        if objects[0].0 == h {
            assert(keys[0] == h);
        } else {
            let rest = objects.subrange(1, objects.len() as int);
            lemma_lookup_listed(rest, h);
            if lookup(objects, h) is Some {
                let rest_keys = rest.map_values(|o: (Seq<char>, Seq<Seq<char>>)| o.0);
                let i = choose|i: int| 0 <= i < rest_keys.len() && rest_keys[i] == h;
                assert(keys[i + 1] == h);
            }
        }
    }
}

/// The index of the first object listed under `hash`.
fn find_object(objects: &Vec<LooseObject>, hash: &String) -> (r: Option<usize>)
    ensures
        r matches Some(k) ==> k < objects@.len() && lookup(objects_view(objects@), hash@) == Some(
            objects_view(objects@)[k as int].1,
        ),
        r is None ==> lookup(objects_view(objects@), hash@) is None,
{
    let ghost all = objects_view(objects@);
    let mut i: usize = 0;
    assert(all.subrange(0, all.len() as int) =~= all);
    while i < objects.len()
        invariant
            i <= objects@.len(),
            all == objects_view(objects@),
            lookup(all, hash@) == lookup(all.subrange(i as int, all.len() as int), hash@),
        decreases objects@.len() - i,
    {
        let ghost sub = all.subrange(i as int, all.len() as int);
        assert(sub[0] == all[i as int]);
        if objects[i].hash == *hash {
            return Some(i);
        }
        assert(sub.subrange(1, sub.len() as int) =~= all.subrange(i + 1, all.len() as int));
        i = i + 1;
    }
    None
}

fn copy_strings(v: &Vec<String>) -> (r: Vec<String>)
    ensures
        strings_view(r@) == strings_view(v@),
{
    let mut r: Vec<String> = Vec::new();
    let mut i: usize = 0;
    while i < v.len()
        invariant
            i <= v@.len(),
            strings_view(r@) =~= strings_view(v@).subrange(0, i as int),
        decreases v@.len() - i,
    {
        let ghost before = r@;
        r.push(v[i].clone());
        assert(strings_view(r@) =~= strings_view(before).push(v@[i as int]@));
        i = i + 1;
    }
    assert(strings_view(v@).subrange(0, i as int) =~= strings_view(v@));
    r
}

proof fn lemma_visited_push(visits: Seq<(Seq<char>, Outcome)>, v: (Seq<char>, Outcome))
    ensures
        visited_hashes(visits.push(v)) == visited_hashes(visits).insert(v.0),
{
    let keys = visits.map_values(|x: (Seq<char>, Outcome)| x.0);
    assert(visits.push(v).map_values(|x: (Seq<char>, Outcome)| x.0) =~= keys.push(v.0));
    keys.lemma_push_to_set_commute(v.0);
}

/// The walk began at `start`.
#[verifier::opaque]
pub open spec fn begins_at(
    start: Seq<char>,
    visits: Seq<(Seq<char>, Outcome)>,
    pending: Seq<Seq<char>>,
) -> bool {
    &&& visits.len() == 0 ==> pending == seq![start]
    &&& visits.len() > 0 ==> visits[0].0 == start
}

/// Copied hashes are listed; hashes found in no loose object are not.
#[verifier::opaque]
pub open spec fn outcomes_fit(
    objects: Seq<(Seq<char>, Seq<Seq<char>>)>,
    visits: Seq<(Seq<char>, Outcome)>,
) -> bool {
    &&& forall|i: int|
        0 <= i < visits.len() && (#[trigger] visits[i]).1 == Outcome::Copied ==> lookup(
            objects,
            visits[i].0,
        ) is Some
    &&& forall|i: int|
        0 <= i < visits.len() && (#[trigger] visits[i]).1 == Outcome::NotLoose ==> lookup(
            objects,
            visits[i].0,
        ) is None
}

/// Every reference of a copied object is visited or still on the stack.
#[verifier::opaque]
pub open spec fn frontier_kept(
    objects: Seq<(Seq<char>, Seq<Seq<char>>)>,
    visits: Seq<(Seq<char>, Outcome)>,
    pending: Seq<Seq<char>>,
) -> bool {
    forall|j: int, h: Seq<char>| #[trigger]
        refers(objects, visits, j, h) ==> was_visited(visits, h) || pending.contains(h)
}

/// Every visit after the first was reached from an earlier copied object.
#[verifier::opaque]
pub open spec fn visits_reached(
    objects: Seq<(Seq<char>, Seq<Seq<char>>)>,
    visits: Seq<(Seq<char>, Outcome)>,
) -> bool {
    forall|i: int| 0 < i < visits.len() ==> #[trigger] reached_at(objects, visits, i)
}

/// Every hash on the stack is the start or was reached from a copied object.
#[verifier::opaque]
pub open spec fn pending_reached(
    objects: Seq<(Seq<char>, Seq<Seq<char>>)>,
    start: Seq<char>,
    visits: Seq<(Seq<char>, Outcome)>,
    pending: Seq<Seq<char>>,
) -> bool {
    forall|k: int|
        0 <= k < pending.len() ==> (#[trigger] pending[k]) == start || exists|j: int|
            #[trigger] refers(objects, visits, j, pending[k])
}

/// What holds between the steps of a walk from `start`.
pub open spec fn walk_invariant(
    objects: Seq<(Seq<char>, Seq<Seq<char>>)>,
    start: Seq<char>,
    visits: Seq<(Seq<char>, Outcome)>,
    pending: Seq<Seq<char>>,
) -> bool {
    &&& visited_once(visits)
    &&& begins_at(start, visits, pending)
    &&& outcomes_fit(objects, visits)
    &&& frontier_kept(objects, visits, pending)
    &&& visits_reached(objects, visits)
    &&& pending_reached(objects, start, visits, pending)
}

proof fn lemma_refers_push(
    objs: Seq<(Seq<char>, Seq<Seq<char>>)>,
    v0: Seq<(Seq<char>, Outcome)>,
    v: (Seq<char>, Outcome),
)
    ensures
        forall|j: int, x: Seq<char>| #[trigger]
            refers(objs, v0, j, x) ==> refers(objs, v0.push(v), j, x),
        forall|x: Seq<char>|
            refers(objs, v0.push(v), v0.len() as int, x) <==> v.1 == Outcome::Copied && (lookup(
                objs,
                v.0,
            ) matches Some(refs) && refs.contains(x)),
{
    assert(forall|j: int| 0 <= j < v0.len() ==> v0.push(v)[j] == v0[j]);
}

proof fn lemma_step_frontier(
    objs: Seq<(Seq<char>, Seq<Seq<char>>)>,
    v0: Seq<(Seq<char>, Outcome)>,
    p0: Seq<Seq<char>>,
    n1: int,
    hv: Seq<char>,
    outcome: Outcome,
    added: Seq<Seq<char>>,
)
    requires
        frontier_kept(objs, v0, p0),
        0 <= n1 < p0.len(),
        p0[n1] == hv,
        forall|j: int| n1 < j < p0.len() ==> was_visited(v0, #[trigger] p0[j]),
        outcome == Outcome::Copied ==> lookup(objs, hv) == Some(added),
    ensures
        frontier_kept(
            objs,
            v0.push((hv, outcome)),
            if outcome == Outcome::Copied {
                p0.subrange(0, n1) + added
            } else {
                p0.subrange(0, n1)
            },
        ),
{
    reveal(frontier_kept);
    let v2 = v0.push((hv, outcome));
    let p2 = if outcome == Outcome::Copied {
        p0.subrange(0, n1) + added
    } else {
        p0.subrange(0, n1)
    };
    lemma_refers_push(objs, v0, (hv, outcome));
    assert(forall|j: int| 0 <= j < v0.len() ==> v2[j] == v0[j]);
    assert forall|j: int, x: Seq<char>| #[trigger]
        refers(objs, v2, j, x) implies was_visited(v2, x) || p2.contains(x) by {
        if j < v0.len() {
            assert(refers(objs, v0, j, x));
            if was_visited(v0, x) {
                let i = choose|i: int| 0 <= i < v0.len() && v0[i].0 == x;
                assert(v2[i].0 == x);
            } else {
                let k = choose|k: int| 0 <= k < p0.len() && p0[k] == x;
                if k < n1 {
                    assert(p2[k] == x);
                } else if k == n1 {
                    assert(v2[v0.len() as int].0 == x);
                } else {
                    assert(was_visited(v0, p0[k]));
                    let i = choose|i: int| 0 <= i < v0.len() && v0[i].0 == x;
                    assert(v2[i].0 == x);
                }
            }
        } else {
            let k = choose|k: int| 0 <= k < added.len() && added[k] == x;
            assert(p2[n1 + k] == x);
        }
    }
}

proof fn lemma_step_reached(
    objs: Seq<(Seq<char>, Seq<Seq<char>>)>,
    start: Seq<char>,
    v0: Seq<(Seq<char>, Outcome)>,
    p0: Seq<Seq<char>>,
    n1: int,
    hv: Seq<char>,
    outcome: Outcome,
    added: Seq<Seq<char>>,
)
    requires
        begins_at(start, v0, p0),
        visits_reached(objs, v0),
        pending_reached(objs, start, v0, p0),
        0 <= n1 < p0.len(),
        p0[n1] == hv,
        !was_visited(v0, hv),
        outcome == Outcome::Copied ==> lookup(objs, hv) == Some(added),
    ensures
        visits_reached(objs, v0.push((hv, outcome))),
        pending_reached(
            objs,
            start,
            v0.push((hv, outcome)),
            if outcome == Outcome::Copied {
                p0.subrange(0, n1) + added
            } else {
                p0.subrange(0, n1)
            },
        ),
        begins_at(
            start,
            v0.push((hv, outcome)),
            if outcome == Outcome::Copied {
                p0.subrange(0, n1) + added
            } else {
                p0.subrange(0, n1)
            },
        ),
{
    reveal(visits_reached);
    reveal(pending_reached);
    reveal(begins_at);
    let v2 = v0.push((hv, outcome));
    let p2 = if outcome == Outcome::Copied {
        p0.subrange(0, n1) + added
    } else {
        p0.subrange(0, n1)
    };
    lemma_refers_push(objs, v0, (hv, outcome));
    assert(forall|j: int| 0 <= j < v0.len() ==> v2[j] == v0[j]);
    if v0.len() > 0 {
        assert(v2[0] == v0[0]);
    }
    assert forall|i: int| 0 < i < v2.len() implies #[trigger] reached_at(objs, v2, i) by {
        if i < v0.len() {
            assert(reached_at(objs, v0, i));
            let j = choose|j: int| 0 <= j < i && #[trigger] refers(objs, v0, j, v0[i].0);
            assert(refers(objs, v2, j, v2[i].0));
        } else {
            if hv == start {
                assert(v0[0].0 == hv);
            }
            let j = choose|j: int| #[trigger] refers(objs, v0, j, p0[n1]);
            assert(refers(objs, v2, j, v2[i].0));
        }
    }
    assert forall|k: int| 0 <= k < p2.len() implies (#[trigger] p2[k]) == start || exists|j: int|
        #[trigger] refers(objs, v2, j, p2[k]) by {
        if k < n1 {
            assert(p2[k] == p0[k]);
            if p0[k] != start {
                let j = choose|j: int| #[trigger] refers(objs, v0, j, p0[k]);
                assert(refers(objs, v2, j, p2[k]));
            }
        } else {
            assert(added[k - n1] == p2[k]);
            assert(refers(objs, v2, v0.len() as int, p2[k]));
        }
    }
}

/// Taking `h` off the stack and visiting it keeps the walk's invariant.
proof fn lemma_walk_step(
    objs: Seq<(Seq<char>, Seq<Seq<char>>)>,
    start: Seq<char>,
    v0: Seq<(Seq<char>, Outcome)>,
    p0: Seq<Seq<char>>,
    n1: int,
    hv: Seq<char>,
    outcome: Outcome,
    added: Seq<Seq<char>>,
)
    requires
        walk_invariant(objs, start, v0, p0),
        0 <= n1 < p0.len(),
        p0[n1] == hv,
        !was_visited(v0, hv),
        forall|j: int| n1 < j < p0.len() ==> was_visited(v0, #[trigger] p0[j]),
        outcome == Outcome::Copied ==> lookup(objs, hv) == Some(added),
        outcome == Outcome::NotLoose ==> lookup(objs, hv) is None,
    ensures
        walk_invariant(
            objs,
            start,
            v0.push((hv, outcome)),
            if outcome == Outcome::Copied {
                p0.subrange(0, n1) + added
            } else {
                p0.subrange(0, n1)
            },
        ),
{
    let v2 = v0.push((hv, outcome));
    lemma_step_frontier(objs, v0, p0, n1, hv, outcome, added);
    lemma_step_reached(objs, start, v0, p0, n1, hv, outcome, added);
    assert(forall|j: int| 0 <= j < v0.len() ==> v2[j] == v0[j]);
    assert forall|i: int, j: int|
        0 <= i < v2.len() && 0 <= j < v2.len() && i != j implies (#[trigger] v2[i]).0
        != (#[trigger] v2[j]).0 by {
        if i == v0.len() {
            assert(v0[j].0 != hv);
        } else if j == v0.len() {
            assert(v0[i].0 != hv);
        }
    }
    reveal(outcomes_fit);
    assert forall|i: int|
        0 <= i < v2.len() && (#[trigger] v2[i]).1 == Outcome::Copied implies lookup(
        objs,
        v2[i].0,
    ) is Some by {
        if i < v0.len() {
            assert(v2[i] == v0[i]);
        }
    }
    assert forall|i: int|
        0 <= i < v2.len() && (#[trigger] v2[i]).1 == Outcome::NotLoose implies lookup(
        objs,
        v2[i].0,
    ) is None by {
        if i < v0.len() {
            assert(v2[i] == v0[i]);
        }
    }
}

/// When the stack runs out, the walk's invariant holds with nothing pending.
proof fn lemma_walk_end(
    objs: Seq<(Seq<char>, Seq<Seq<char>>)>,
    start: Seq<char>,
    v0: Seq<(Seq<char>, Outcome)>,
    p0: Seq<Seq<char>>,
)
    requires
        walk_invariant(objs, start, v0, p0),
        forall|j: int| 0 <= j < p0.len() ==> was_visited(v0, #[trigger] p0[j]),
    ensures
        walk_invariant(objs, start, v0, Seq::empty()),
        v0.len() > 0,
        walk_shape(objs, start, v0),
{
    reveal(frontier_kept);
    reveal(begins_at);
    reveal(pending_reached);
    reveal(visits_reached);
    reveal(outcomes_fit);
    assert forall|j: int, h: Seq<char>| #[trigger] refers(objs, v0, j, h) implies was_visited(
        v0,
        h,
    ) by {
        if p0.contains(h) {
            let k = choose|k: int| 0 <= k < p0.len() && p0[k] == h;
            assert(was_visited(v0, p0[k]));
        }
    }
    if v0.len() == 0 {
        assert(was_visited(v0, p0[0]));
    }
}

/// Visiting `h` takes the measure of the walk down, or leaves it where the
/// stack shrank.
proof fn lemma_walk_measure(
    dom: Set<Seq<char>>,
    v0: Seq<(Seq<char>, Outcome)>,
    hv: Seq<char>,
    outcome: Outcome,
)
    requires
        dom.finite(),
        !was_visited(v0, hv),
    ensures
        dom.contains(hv) ==> dom.difference(visited_hashes(v0.push((hv, outcome)))).len()
            < dom.difference(visited_hashes(v0)).len(),
        !dom.contains(hv) ==> dom.difference(visited_hashes(v0.push((hv, outcome))))
            == dom.difference(visited_hashes(v0)),
{
    lemma_visited_push(v0, (hv, outcome));
    let before = dom.difference(visited_hashes(v0));
    let after = dom.difference(visited_hashes(v0.push((hv, outcome))));
    assert(!visited_hashes(v0).contains(hv)) by {
        if visited_hashes(v0).contains(hv) {
            let keys = v0.map_values(|x: (Seq<char>, Outcome)| x.0);
            let i = choose|i: int| 0 <= i < keys.len() && keys[i] == hv;
            assert(v0[i].0 == hv);
        }
    }
    if dom.contains(hv) {
        assert(after =~= before.remove(hv));
    } else {
        assert(after =~= before);
    }
}

/// The walk treats each hash by where it is found: at the destination,
/// loose in the source, or else in a pack.
pub open spec fn outcomes_exact<R: HasObject>(
    objects: Seq<(Seq<char>, Seq<Seq<char>>)>,
    remote: &R,
    visits: Seq<(Seq<char>, Outcome)>,
) -> bool {
    forall|i: int|
        0 <= i < visits.len() ==> (#[trigger] visits[i]).1 == outcome_for(
            remote.holds(visits[i].0),
            lookup(objects, visits[i].0) is Some,
        )
}

/// What the walk from `start` gives, with `remote` as the destination and
/// `objects` as the source's loose objects: its shape, and for each hash
/// the outcome that the destination and the source call for. A hash that
/// the destination holds stops the walk there, so when it holds `start`
/// that is the only visit.
pub open spec fn walk_correct<R: HasObject>(
    objects: Seq<(Seq<char>, Seq<Seq<char>>)>,
    remote: &R,
    start: Seq<char>,
    visits: Seq<(Seq<char>, Outcome)>,
) -> bool {
    walk_shape(objects, start, visits) && outcomes_exact(objects, remote, visits)
}

/// Walks the objects reachable from `start` in `source`, asking `remote`
/// which it already holds.
pub fn walk_objects<S: LooseObjects, R: HasObject>(source: &S, start: &str, remote: &R) -> (r: Vec<
    Visit,
>)
    ensures
        walk_correct(source.listing(), remote, start@, visits_view(r@)),
{
    let ghost objs = source.listing();
    let ghost dom = object_hashes(objs);
    proof {
        vstd::seq_lib::seq_to_set_is_finite(objs.map_values(|o: (Seq<char>, Seq<Seq<char>>)| o.0));
    }
    let mut t = Traversal::new(start);
    let mut done = false;
    proof {
        reveal(begins_at);
        reveal(outcomes_fit);
        reveal(frontier_kept);
        reveal(visits_reached);
        reveal(pending_reached);
        assert(t.visited().len() == 0);
        assert forall|k: int| 0 <= k < t.pending().len() implies (#[trigger] t.pending()[k])
            == start@ || exists|j: int| #[trigger] refers(objs, t.visited(), j, t.pending()[k]) by {
            assert(t.pending()[k] == start@);
        }
    }
    while !done
        invariant
            objs == source.listing(),
            dom == object_hashes(objs),
            dom.finite(),
            t.wf(),
            walk_invariant(objs, start@, t.visited(), t.pending()),
            outcomes_exact(objs, remote, t.visited()),
            t.visited().len() == 0 ==> !done,
            done ==> t.pending().len() == 0,
        decreases dom.difference(visited_hashes(t.visited())).len(), t.pending().len() + if done {
            0int
        } else {
            1int
        },
    {
        let ghost v0 = t.visited();
        let ghost p0 = t.pending();
        let next = t.next_hash();
        let ghost p1 = t.pending();
        match next {
            None => {
                proof {
                    lemma_walk_end(objs, start@, v0, p0);
                    assert(p1 =~= Seq::<Seq<char>>::empty());
                }
                done = true;
            },
            Some(h) => {
                let ghost n1 = p1.len() as int;
                let ghost hv = h@;
                let at_destination = remote.has_object(h.as_str());
                let loose_refs = if at_destination {
                    None
                } else {
                    source.loose_references(h.as_str())
                };
                let ghost outcome = outcome_for(at_destination, loose_refs is Some);
                let ghost added = if outcome == Outcome::Copied {
                    strings_view(loose_refs->0@)
                } else {
                    Seq::<Seq<char>>::empty()
                };
                proof {
                    if outcome == Outcome::Copied {
                        lemma_lookup_listed(objs, hv);
                    }
                    lemma_walk_step(objs, start@, v0, p0, n1, hv, outcome, added);
                    lemma_walk_measure(dom, v0, hv, outcome);
                }
                t.visit(h, at_destination, loose_refs);
                proof {
                    let v2 = t.visited();
                    assert(t.pending() =~= if outcome == Outcome::Copied {
                        p0.subrange(0, n1) + added
                    } else {
                        p0.subrange(0, n1)
                    });
                    assert forall|i: int| 0 <= i < v2.len() implies (#[trigger] v2[i]).1
                        == outcome_for(remote.holds(v2[i].0), lookup(objs, v2[i].0) is Some) by {
                        if i < v0.len() {
                            assert(v2[i] == v0[i]);
                        }
                    }
                }
            },
        }
    }
    let visits = t.into_visits();
    proof {
        lemma_walk_end(objs, start@, t.visited(), t.pending());
    }
    visits
}

/// A listing of loose objects held in memory.
pub struct LooseObjectList {
    pub objects: Vec<LooseObject>,
}

impl LooseObjects for LooseObjectList {
    open spec fn listing(&self) -> Seq<(Seq<char>, Seq<Seq<char>>)> {
        objects_view(self.objects@)
    }

    fn loose_references(&self, hash: &str) -> (r: Option<Vec<String>>) {
        let key = hash.to_owned();
        match find_object(&self.objects, &key) {
            Some(k) => Some(copy_strings(&self.objects[k].references)),
            None => None,
        }
    }
}

fn contains_string(v: &Vec<String>, s: &str) -> (r: bool)
    ensures
        r == strings_view(v@).contains(s@),
{
    let key = s.to_owned();
    let mut i: usize = 0;
    while i < v.len()
        invariant
            i <= v@.len(),
            key@ == s@,
            forall|j: int| 0 <= j < i ==> strings_view(v@)[j] != s@,
        decreases v@.len() - i,
    {
        if v[i] == key {
            assert(strings_view(v@)[i as int] == s@);
            return true;
        }
        i = i + 1;
    }
    false
}

/// A set of objects and pack files held in memory.
pub struct ObjectSet {
    pub objects: Vec<String>,
    pub packs: Vec<String>,
}

impl HasObject for ObjectSet {
    open spec fn holds(&self, hash: Seq<char>) -> bool {
        strings_view(self.objects@).contains(hash)
    }

    open spec fn holds_pack(&self, name: Seq<char>) -> bool {
        strings_view(self.packs@).contains(name)
    }

    fn has_object(&self, hash: &str) -> (r: bool) {
        contains_string(&self.objects, hash)
    }

    fn has_pack_file(&self, name: &str) -> (r: bool) {
        contains_string(&self.packs, name)
    }
}

/// A file that a push has to copy.
pub enum FilesToPush {
    LooseObject { hash: String, path: String },
    PackFile { path: String },
}

/// What a file to push is, as character sequences.
pub enum TransferView {
    Loose { hash: Seq<char>, path: Seq<char> },
    Pack { path: Seq<char> },
}

impl View for FilesToPush {
    type V = TransferView;

    open spec fn view(&self) -> TransferView {
        match self {
            FilesToPush::LooseObject { hash, path } => TransferView::Loose {
                hash: hash@,
                path: path@,
            },
            FilesToPush::PackFile { path } => TransferView::Pack { path: path@ },
        }
    }
}

pub open spec fn transfers_view(files: Seq<FilesToPush>) -> Seq<TransferView> {
    files.map_values(|f: FilesToPush| f@)
}

/// The loose file of the object `hash` under `root`.
pub open spec fn loose_transfer(root: Seq<char>, hash: Seq<char>) -> TransferView {
    TransferView::Loose { hash, path: loose_location(root, hash) }
}

/// The pack file `name` under `root`.
pub open spec fn pack_transfer(root: Seq<char>, name: Seq<char>) -> TransferView {
    TransferView::Pack { path: pack_location(root, name) }
}

/// The copied hashes of a walk, in the order of their visits.
pub open spec fn copied_hashes(visits: Seq<(Seq<char>, Outcome)>) -> Seq<Seq<char>>
    decreases visits.len(),
{
    if visits.len() == 0 {
        Seq::empty()
    } else {
        copied_hashes(visits.drop_last()) + if visits.last().1 == Outcome::Copied {
            seq![visits.last().0]
        } else {
            Seq::empty()
        }
    }
}

/// The loose file of each hash under `root`, in order.
pub open spec fn loose_transfers(root: Seq<char>, hashes: Seq<Seq<char>>) -> Seq<TransferView> {
    hashes.map_values(|h: Seq<char>| loose_transfer(root, h))
}

/// The pack files among `names` that `remote` lacks, once each, in order.
pub open spec fn missing_packs<R: HasObject>(
    remote: &R,
    root: Seq<char>,
    names: Seq<Seq<char>>,
) -> Seq<TransferView>
    decreases names.len(),
{
    if names.len() == 0 {
        Seq::empty()
    } else {
        missing_packs(remote, root, names.drop_last()) + if remote.holds_pack(names.last()) {
            Seq::empty()
        } else {
            seq![pack_transfer(root, names.last())]
        }
    }
}

/// The files to push after a walk: the loose file of each copied object, in
/// the order of the visits, and then, only where some hash is in a pack,
/// the pack files of the source that the remote lacks.
pub open spec fn planned_transfers<R: HasObject>(
    root: Seq<char>,
    remote: &R,
    visits: Seq<(Seq<char>, Outcome)>,
    pack_files: Seq<Seq<char>>,
) -> Seq<TransferView> {
    loose_transfers(root, copied_hashes(visits)) + if any_not_loose(visits) {
        missing_packs(remote, root, pack_files)
    } else {
        Seq::empty()
    }
}

/// The files that a push from `source` has to copy so that `remote` holds
/// everything reachable from `start_hash`; `objects` are the source's loose
/// objects and `pack_files` the names of its pack files.
pub fn find_objects_to_push<S: LooseObjects, R: HasObject>(
    source: &Repository,
    objects: &S,
    pack_files: &Vec<String>,
    start_hash: &str,
    remote: &R,
) -> (r: Vec<FilesToPush>)
    ensures
        exists|visits: Seq<(Seq<char>, Outcome)>|
            walk_correct(objects.listing(), remote, start_hash@, visits) && transfers_view(r@)
                == #[trigger] planned_transfers(
                source.root(),
                remote,
                visits,
                strings_view(pack_files@),
            ),
{
    let visits = walk_objects(objects, start_hash, remote);
    let ghost vs = visits_view(visits@);
    let ghost root = source.root();
    let mut files: Vec<FilesToPush> = Vec::new();
    let mut needs_packs = false;
    let mut i: usize = 0;
    assert(transfers_view(files@) =~= loose_transfers(root, copied_hashes(vs.subrange(0, 0))));
    while i < visits.len()
        invariant
            i <= visits@.len(),
            vs == visits_view(visits@),
            root == source.root(),
            transfers_view(files@) == loose_transfers(root, copied_hashes(vs.subrange(0, i as int))),
            needs_packs == any_not_loose(vs.subrange(0, i as int)),
        decreases visits@.len() - i,
    {
        let ghost prefix = vs.subrange(0, i as int);
        let ghost next = vs.subrange(0, i + 1);
        assert(next.drop_last() =~= prefix);
        assert(next.last() == vs[i as int]);
        let visit = &visits[i];
        if visit.outcome == Outcome::Copied {
            let path = source.loose_object_path(visit.hash.as_str());
            let ghost before = files@;
            files.push(FilesToPush::LooseObject { hash: visit.hash.clone(), path });
            assert(transfers_view(files@) =~= transfers_view(before).push(
                loose_transfer(root, vs[i as int].0),
            ));
        }
        if visit.outcome == Outcome::NotLoose {
            needs_packs = true;
        }
        proof {
            assert(transfers_view(files@) =~= loose_transfers(root, copied_hashes(next)));
            if any_not_loose(prefix) {
                let j = choose|j: int| 0 <= j < prefix.len() && prefix[j].1 == Outcome::NotLoose;
                assert(next[j] == prefix[j]);
            }
            if any_not_loose(next) {
                let j = choose|j: int| 0 <= j < next.len() && next[j].1 == Outcome::NotLoose;
                if j < prefix.len() {
                    assert(prefix[j] == next[j]);
                }
            }
        }
        i = i + 1;
    }
    assert(vs.subrange(0, i as int) =~= vs);
    let ghost loose_part = transfers_view(files@);
    let ghost names = strings_view(pack_files@);
    if needs_packs {
        let mut m: usize = 0;
        assert(names.subrange(0, 0) =~= Seq::<Seq<char>>::empty());
        assert(loose_part + missing_packs(remote, root, names.subrange(0, 0)) =~= loose_part);
        while m < pack_files.len()
            invariant
                m <= pack_files@.len(),
                root == source.root(),
                names == strings_view(pack_files@),
                transfers_view(files@) == loose_part + missing_packs(
                    remote,
                    root,
                    names.subrange(0, m as int),
                ),
            decreases pack_files@.len() - m,
        {
            let ghost before = files@;
            let ghost upto = names.subrange(0, m + 1);
            assert(upto.drop_last() =~= names.subrange(0, m as int));
            assert(upto.last() == pack_files@[m as int]@);
            if !remote.has_pack_file(pack_files[m].as_str()) {
                let path = source.pack_file_path(pack_files[m].as_str());
                files.push(FilesToPush::PackFile { path });
                assert(transfers_view(files@) =~= transfers_view(before).push(
                    pack_transfer(root, names[m as int]),
                ));
                assert(transfers_view(files@) =~= loose_part + missing_packs(remote, root, upto));
            } else {
                assert(missing_packs(remote, root, upto) =~= missing_packs(
                    remote,
                    root,
                    names.subrange(0, m as int),
                ));
            }
            m = m + 1;
        }
        assert(names.subrange(0, m as int) =~= names);
    } else {
        assert(loose_part + Seq::<TransferView>::empty() =~= loose_part);
    }
    assert(transfers_view(files@) == planned_transfers(root, remote, vs, names));
    files
}

} // verus!
