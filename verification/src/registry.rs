//! The registry: a mapping from command name to handler, with single and
//! bulk registration, two merge policies, and the dispatcher.
//!
//! A registry is modelled as a `Map<Seq<char>, H>` from name to handler;
//! every operation states what it does to that map.
use vstd::prelude::*;

use crate::errors::UnknownCommandError;

verus! {

/// A command handler: an opaque callable taking the command's arguments.
/// Callers of the library supply the implementations; the registry only
/// stores and invokes them.
pub trait Handler {
    fn call(&self, args: Vec<String>);
}

/// The registry. Internally a vector of (name, handler) entries with
/// pairwise distinct names; externally a map from name to handler.
pub struct CLI<H> {
    entries: Vec<(String, H)>,
}

/// The map described by a sequence of (name, handler) entries, later
/// entries overriding earlier ones.
spec fn map_of<H>(es: Seq<(String, H)>) -> Map<Seq<char>, H>
    decreases es.len(),
{
    if es.len() == 0 {
        Map::empty()
    } else {
        map_of(es.drop_last()).insert(es.last().0@, es.last().1)
    }
}

impl<H> View for CLI<H> {
    type V = Map<Seq<char>, H>;

    closed spec fn view(&self) -> Map<Seq<char>, H> {
        map_of(self.entries@)
    }
}

impl<H> CLI<H> {
    /// Internal well-formedness: no two entries share a name.
    pub closed spec fn wf(&self) -> bool {
        forall|i: int, j: int|
            0 <= i < j < self.entries@.len() ==> self.entries@[i].0@ != self.entries@[j].0@
    }
}

/// A key is in the map of an entry sequence exactly when some entry bears it.
proof fn lemma_map_of_contains<H>(es: Seq<(String, H)>, k: Seq<char>)
    ensures
        map_of(es).contains_key(k) <==> exists|i: int| 0 <= i < es.len() && es[i].0@ == k,
    decreases es.len(),
{
    if es.len() > 0 {
        lemma_map_of_contains(es.drop_last(), k);
        if map_of(es).contains_key(k) {
            if es.last().0@ == k {
                assert(es[es.len() - 1].0@ == k);
            } else {
                let i = choose|i: int| 0 <= i < es.drop_last().len() && es.drop_last()[i].0@ == k;
                assert(es[i].0@ == k);
            }
        }
        if exists|i: int| 0 <= i < es.len() && es[i].0@ == k {
            let i = choose|i: int| 0 <= i < es.len() && es[i].0@ == k;
            if i < es.len() - 1 {
                assert(es.drop_last()[i].0@ == k);
            }
        }
    }
}

/// With pairwise distinct names, the map sends each entry's name to that
/// entry's handler.
proof fn lemma_map_of_index<H>(es: Seq<(String, H)>, i: int)
    requires
        0 <= i < es.len(),
        forall|p: int, q: int| 0 <= p < q < es.len() ==> es[p].0@ != es[q].0@,
    ensures
        map_of(es).contains_key(es[i].0@),
        map_of(es)[es[i].0@] == es[i].1,
    decreases es.len(),
{
    if i == es.len() - 1 {
    } else {
        assert(forall|p: int, q: int|
            0 <= p < q < es.drop_last().len() ==> es.drop_last()[p].0@ != es.drop_last()[q].0@);
        lemma_map_of_index(es.drop_last(), i);
        assert(es.drop_last()[i] == es[i]);
        assert(es[i].0@ != es.last().0@);
    }
}

/// Appending an entry inserts its name into the map.
proof fn lemma_map_of_push<H>(es: Seq<(String, H)>, e: (String, H))
    ensures
        map_of(es.push(e)) == map_of(es).insert(e.0@, e.1),
{
    assert(es.push(e).drop_last() =~= es);
    assert(es.push(e).last() == e);
}

/// Overwriting the entry that bears a name updates that name in the map.
proof fn lemma_map_of_update<H>(es: Seq<(String, H)>, i: int, e: (String, H))
    requires
        0 <= i < es.len(),
        es[i].0@ == e.0@,
        forall|p: int, q: int| 0 <= p < q < es.len() ==> es[p].0@ != es[q].0@,
    ensures
        map_of(es.update(i, e)) == map_of(es).insert(e.0@, e.1),
    decreases es.len(),
{
    let up = es.update(i, e);
    if i == es.len() - 1 {
        assert(up.drop_last() =~= es.drop_last());
        assert(up.last() == e);
        assert(map_of(es.drop_last()).insert(es.last().0@, es.last().1).insert(e.0@, e.1)
            =~= map_of(es.drop_last()).insert(e.0@, e.1));
    } else {
        assert(forall|p: int, q: int|
            0 <= p < q < es.drop_last().len() ==> es.drop_last()[p].0@ != es.drop_last()[q].0@);
        lemma_map_of_update(es.drop_last(), i, e);
        assert(up.drop_last() =~= es.drop_last().update(i, e));
        assert(up.last() == es.last());
        assert(es[i].0@ != es.last().0@);
        assert(map_of(es.drop_last()).insert(e.0@, e.1).insert(es.last().0@, es.last().1)
            =~= map_of(es.drop_last()).insert(es.last().0@, es.last().1).insert(e.0@, e.1));
    }
}

/// Character-for-character string equality, proved against the views.
fn str_eq(a: &str, b: &str) -> (r: bool)
    ensures
        r == (a@ == b@),
{
    let alen = a.unicode_len();
    let blen = b.unicode_len();
    if alen != blen {
        proof {
            assert(a@ != b@);
        }
        return false;
    }
    let mut i: usize = 0;
    while i < alen
        invariant
            alen == a@.len(),
            alen == b@.len(),
            0 <= i <= alen,
            forall|j: int| 0 <= j < i ==> a@[j] == b@[j],
        decreases alen - i,
    {
        if a.get_char(i) != b.get_char(i) {
            proof {
                assert(a@[i as int] != b@[i as int]);
            }
            return false;
        }
        i += 1;
    }
    proof {
        assert(a@ =~= b@);
    }
    true
}

impl<H> Default for CLI<H> {
    /// The empty registry: no command is registered.
    fn default() -> (r: Self)
        ensures
            r.wf(),
            r@ == Map::<Seq<char>, H>::empty(),
    {
        CLI { entries: Vec::new() }
    }
}

impl<H> CLI<H> {
    /// Index of the entry bearing the given name, if any.
    fn find_index(&self, commandName: &str) -> (r: Option<usize>)
        ensures
            match r {
                Some(i) => i < self.entries@.len() && self.entries@[i as int].0@ == commandName@,
                None => forall|i: int|
                    0 <= i < self.entries@.len() ==> self.entries@[i].0@ != commandName@,
            },
    {
        let n = self.entries.len();
        let mut i: usize = 0;
        while i < n
            invariant
                n == self.entries@.len(),
                0 <= i <= n,
                forall|j: int| 0 <= j < i ==> self.entries@[j].0@ != commandName@,
            decreases n - i,
        {
            if str_eq(self.entries[i].0.as_str(), commandName) {
                return Some(i);
            }
            i += 1;
        }
        None
    }

    /// Existence check: is a command registered under this name?
    pub fn hasCommand(&self, commandName: &str) -> (r: bool)
        ensures
            r == self@.dom().contains(commandName@),
    {
        proof {
            lemma_map_of_contains(self.entries@, commandName@);
        }
        match self.find_index(commandName) {
            Some(_) => true,
            None => false,
        }
    }

    /// Registers a command, overwriting any prior handler under the same
    /// name (last-write-wins).
    pub fn addCommand(&mut self, commandName: String, commandAction: H)
        requires
            old(self).wf(),
        ensures
            final(self).wf(),
            final(self)@ == old(self)@.insert(commandName@, commandAction),
            final(self)@.dom().contains(commandName@),
    {
        match self.find_index(commandName.as_str()) {
            Some(i) => {
                proof {
                    lemma_map_of_update(self.entries@, i as int, (commandName, commandAction));
                }
                self.entries.set(i, (commandName, commandAction));
            }
            None => {
                proof {
                    lemma_map_of_push(self.entries@, (commandName, commandAction));
                }
                self.entries.push((commandName, commandAction));
            }
        }
    }
}

impl<H: Copy> CLI<H> {
    /// Registers the same handler under every given name; equivalent to
    /// repeated `addCommand`, in order.
    pub fn addCommands(&mut self, commandNames: Vec<String>, commandAction: H)
        requires
            old(self).wf(),
        ensures
            final(self).wf(),
            forall|k: Seq<char>|
                final(self)@.dom().contains(k) <==> (old(self)@.dom().contains(k) || exists|i: int|
                    0 <= i < commandNames@.len() && (#[trigger] commandNames@[i])@ == k),
            forall|i: int|
                0 <= i < commandNames@.len() ==> final(self)@[(#[trigger] commandNames@[i])@]
                    == commandAction,
            forall|k: Seq<char>|
                old(self)@.dom().contains(k) && !(exists|i: int|
                    0 <= i < commandNames@.len() && (#[trigger] commandNames@[i])@ == k)
                    ==> final(self)@[k] == old(self)@[k],
    {
        let n = commandNames.len();
        let mut idx: usize = 0;
        while idx < n
            invariant
                self.wf(),
                n == commandNames@.len(),
                0 <= idx <= n,
                forall|k: Seq<char>|
                    self@.dom().contains(k) <==> (old(self)@.dom().contains(k) || exists|i: int|
                        0 <= i < idx && (#[trigger] commandNames@[i])@ == k),
                forall|i: int|
                    0 <= i < idx ==> self@[(#[trigger] commandNames@[i])@] == commandAction,
                forall|k: Seq<char>|
                    old(self)@.dom().contains(k) && !(exists|i: int|
                        0 <= i < idx && (#[trigger] commandNames@[i])@ == k) ==> self@[k] == old(
                        self,
                    )@[k],
            decreases n - idx,
        {
            let name = commandNames[idx].clone();
            self.addCommand(name, commandAction);
            idx += 1;
        }
    }
}

/// The name a colliding incoming command is re-registered under when the
/// merge keeps both: the original name with `_bis` appended.
pub open spec fn bis_of(n: Seq<char>) -> Seq<char> {
    n + "_bis"@
}

/// No collision between the two registries has its suffixed name already
/// taken on either side. Under this condition the suffixing merge admits
/// an exact description; outside it, later insertions may overwrite
/// suffixed names (last-write-wins, as direct registration does).
pub open spec fn merge_fresh<H>(m: Map<Seq<char>, H>, o: Map<Seq<char>, H>) -> bool {
    forall|k: Seq<char>|
        (#[trigger] o.dom().contains(k)) && m.dom().contains(k) ==> !o.dom().contains(bis_of(k))
            && !m.dom().contains(bis_of(k))
}

/// Exact description of the collision-dropping merge: `after` holds every
/// name of `before` with its original handler, plus the names of
/// `incoming` that `before` lacked with `incoming`'s handlers, and no
/// other name.
pub open spec fn merge_keeps_existing<H>(
    before: Map<Seq<char>, H>,
    incoming: Map<Seq<char>, H>,
    after: Map<Seq<char>, H>,
) -> bool {
    &&& forall|k: Seq<char>|
        #![trigger after.dom().contains(k)]
        after.dom().contains(k) <==> (before.dom().contains(k) || incoming.dom().contains(k))
    &&& forall|k: Seq<char>| before.dom().contains(k) ==> after[k] == before[k]
    &&& forall|k: Seq<char>|
        incoming.dom().contains(k) && !before.dom().contains(k) ==> after[k] == incoming[k]
}

/// Bounds on the suffixing merge that hold for every input: no name of
/// either side is lost, and every name of `after` comes from `before`,
/// from `incoming`, or is the suffixed form of a name of `incoming`.
pub open spec fn merge_suffix_covers<H>(
    before: Map<Seq<char>, H>,
    incoming: Map<Seq<char>, H>,
    after: Map<Seq<char>, H>,
) -> bool {
    &&& forall|k: Seq<char>|
        before.dom().contains(k) || incoming.dom().contains(k) ==> #[trigger] after.dom().contains(
            k,
        )
    &&& forall|k: Seq<char>|
        #![trigger after.dom().contains(k)]
        after.dom().contains(k) ==> before.dom().contains(k) || incoming.dom().contains(k) || (
        exists|n: Seq<char>| #[trigger] incoming.dom().contains(n) && k == bis_of(n))
}

/// Exact description of the suffixing merge, available when
/// `merge_fresh(before, incoming)` holds: `before`'s entries are kept
/// untouched, a name unique to `incoming` is taken as it stands, and a
/// colliding name's incoming handler sits under the suffixed name.
pub open spec fn merge_suffix_exact<H>(
    before: Map<Seq<char>, H>,
    incoming: Map<Seq<char>, H>,
    after: Map<Seq<char>, H>,
) -> bool {
    &&& forall|k: Seq<char>|
        before.dom().contains(k) ==> #[trigger] after.dom().contains(k) && after[k] == before[k]
    &&& forall|k: Seq<char>|
        incoming.dom().contains(k) && !before.dom().contains(k) ==> #[trigger] after.dom().contains(
            k,
        ) && after[k] == incoming[k]
    &&& forall|k: Seq<char>|
        #![trigger incoming.dom().contains(k), before.dom().contains(k)]
        incoming.dom().contains(k) && before.dom().contains(k) ==> after.dom().contains(bis_of(k))
            && after[bis_of(k)] == incoming[k]
    &&& forall|k: Seq<char>|
        #![trigger after.dom().contains(k)]
        after.dom().contains(k) ==> before.dom().contains(k) || incoming.dom().contains(k) || (
        exists|n: Seq<char>|
            #[trigger] incoming.dom().contains(n) && before.dom().contains(n) && k == bis_of(n))
}

proof fn lemma_bis_injective(a: Seq<char>, b: Seq<char>)
    requires
        bis_of(a) == bis_of(b),
    ensures
        a == b,
{
    assert(bis_of(a).len() == a.len() + "_bis"@.len());
    assert(bis_of(b).len() == b.len() + "_bis"@.len());
    assert(a.len() == b.len());
    assert(a =~= bis_of(a).take(a.len() as int));
    assert(b =~= bis_of(b).take(b.len() as int));
}

impl<H: Copy> CLI<H> {
    /// Builds a fresh registry holding every entry of `self` and every
    /// entry of `other`; on a shared name `other` wins (right-bias).
    /// Neither input is mutated.
    pub fn combine(&self, other: &CLI<H>) -> (r: CLI<H>)
        requires
            self.wf(),
            other.wf(),
        ensures
            r.wf(),
            r@ == self@.union_prefer_right(other@),
    {
        let mut r: CLI<H> = CLI { entries: Vec::new() };
        let n = self.entries.len();
        let mut i: usize = 0;
        while i < n
            invariant
                n == self.entries@.len(),
                0 <= i <= n,
                r.wf(),
                r@ == map_of(self.entries@.take(i as int)),
            decreases n - i,
        {
            proof {
                assert(self.entries@.take(i + 1) =~= self.entries@.take(i as int).push(
                    self.entries@[i as int],
                ));
                lemma_map_of_push(self.entries@.take(i as int), self.entries@[i as int]);
            }
            let name = self.entries[i].0.clone();
            let h = self.entries[i].1;
            r.addCommand(name, h);
            i += 1;
        }
        proof {
            assert(self.entries@.take(n as int) =~= self.entries@);
            assert(self@.union_prefer_right(map_of(Seq::<(String, H)>::empty())) =~= self@);
            assert(other.entries@.take(0) =~= Seq::<(String, H)>::empty());
        }
        let m = other.entries.len();
        let mut j: usize = 0;
        while j < m
            invariant
                m == other.entries@.len(),
                0 <= j <= m,
                r.wf(),
                r@ == self@.union_prefer_right(map_of(other.entries@.take(j as int))),
            decreases m - j,
        {
            proof {
                assert(other.entries@.take(j + 1) =~= other.entries@.take(j as int).push(
                    other.entries@[j as int],
                ));
                lemma_map_of_push(other.entries@.take(j as int), other.entries@[j as int]);
                assert(self@.union_prefer_right(
                    map_of(other.entries@.take(j as int)).insert(
                        other.entries@[j as int].0@,
                        other.entries@[j as int].1,
                    ),
                ) =~= self@.union_prefer_right(map_of(other.entries@.take(j as int))).insert(
                    other.entries@[j as int].0@,
                    other.entries@[j as int].1,
                ));
            }
            let name = other.entries[j].0.clone();
            let h = other.entries[j].1;
            r.addCommand(name, h);
            j += 1;
        }
        proof {
            assert(other.entries@.take(m as int) =~= other.entries@);
        }
        r
    }

    /// Merges `other` into `self`. A name new to `self` is registered as
    /// it stands. A colliding name keeps `self`'s handler; the incoming
    /// handler is registered under the name suffixed with `_bis` when
    /// `bis_functions` is set, and dropped otherwise.
    pub fn merge(&mut self, other: CLI<H>, bis_functions: bool)
        requires
            old(self).wf(),
            other.wf(),
        ensures
            final(self).wf(),
            !bis_functions ==> merge_keeps_existing(old(self)@, other@, final(self)@),
            bis_functions ==> merge_suffix_covers(old(self)@, other@, final(self)@),
            bis_functions && merge_fresh(old(self)@, other@) ==> merge_suffix_exact(
                old(self)@,
                other@,
                final(self)@,
            ),
    {
        if bis_functions {
            self.merge_bis(&other);
        } else {
            self.merge_keep(&other);
        }
    }

    /// Merge with collisions dropped: `self` keeps its handler, the
    /// incoming entry is discarded.
    fn merge_keep(&mut self, other: &CLI<H>)
        requires
            old(self).wf(),
            other.wf(),
        ensures
            final(self).wf(),
            merge_keeps_existing(old(self)@, other@, final(self)@),
    {
        let ghost m0 = self@;
        let ghost es = other.entries@;
        let n = other.entries.len();
        let mut j: usize = 0;
        while j < n
            invariant
                n == es.len(),
                es == other.entries@,
                other.wf(),
                0 <= j <= n,
                self.wf(),
                forall|k: Seq<char>|
                    #![trigger self@.dom().contains(k)]
                    self@.dom().contains(k) <==> (m0.dom().contains(k) || exists|i: int|
                        0 <= i < j && (#[trigger] es[i]).0@ == k),
                forall|k: Seq<char>| m0.dom().contains(k) ==> self@[k] == m0[k],
                forall|i: int|
                    0 <= i < j && !m0.dom().contains((#[trigger] es[i]).0@) ==> self@[es[i].0@]
                        == es[i].1,
            decreases n - j,
        {
            let name = other.entries[j].0.clone();
            let h = other.entries[j].1;
            if self.hasCommand(name.as_str()) {
                proof {
                    if !m0.dom().contains(es[j as int].0@) {
                        let i = choose|i: int| 0 <= i < j && (#[trigger] es[i]).0@ == es[
                            j as int
                        ].0@;
                        assert(false);
                    }
                }
            } else {
                self.addCommand(name, h);
            }
            j += 1;
        }
        proof {
            assert forall|k: Seq<char>|
                (exists|i: int| 0 <= i < es.len() && (#[trigger] es[i]).0@ == k)
                    <==> #[trigger] other@.dom().contains(k) by {
                lemma_map_of_contains(es, k);
            }
            assert forall|k: Seq<char>|
                other@.dom().contains(k) && !m0.dom().contains(k) implies self@[k] == other@[k] by {
                let i = choose|i: int| 0 <= i < es.len() && (#[trigger] es[i]).0@ == k;
                lemma_map_of_index(es, i);
            }
        }
    }

    /// Merge with collisions kept on both sides: `self` keeps its handler
    /// under the colliding name, the incoming handler is registered under
    /// the name suffixed with `_bis` (overwriting a prior holder of that
    /// suffixed name, as direct registration would).
    fn merge_bis(&mut self, other: &CLI<H>)
        requires
            old(self).wf(),
            other.wf(),
        ensures
            final(self).wf(),
            merge_suffix_covers(old(self)@, other@, final(self)@),
            merge_fresh(old(self)@, other@) ==> merge_suffix_exact(
                old(self)@,
                other@,
                final(self)@,
            ),
    {
        let ghost m0 = self@;
        let ghost es = other.entries@;
        let ghost fresh = merge_fresh(m0, other@);
        proof {
            assert forall|k: Seq<char>|
                (exists|i: int| 0 <= i < es.len() && (#[trigger] es[i]).0@ == k)
                    <==> #[trigger] other@.dom().contains(k) by {
                lemma_map_of_contains(es, k);
            }
        }
        let n = other.entries.len();
        let mut j: usize = 0;
        while j < n
            invariant
                n == es.len(),
                es == other.entries@,
                other.wf(),
                fresh == merge_fresh(m0, other@),
                forall|k: Seq<char>|
                    (exists|i: int| 0 <= i < es.len() && (#[trigger] es[i]).0@ == k)
                        <==> #[trigger] other@.dom().contains(k),
                0 <= j <= n,
                self.wf(),
                forall|k: Seq<char>| m0.dom().contains(k) ==> self@.dom().contains(k),
                forall|i: int| 0 <= i < j ==> self@.dom().contains((#[trigger] es[i]).0@),
                forall|k: Seq<char>|
                    #![trigger self@.dom().contains(k)]
                    self@.dom().contains(k) ==> m0.dom().contains(k) || (exists|i: int|
                        0 <= i < j && (k == (#[trigger] es[i]).0@ || k == bis_of(es[i].0@))),
                fresh ==> {
                    &&& forall|k: Seq<char>| m0.dom().contains(k) ==> self@[k] == m0[k]
                    &&& forall|i: int|
                        0 <= i < j && !m0.dom().contains((#[trigger] es[i]).0@) ==> self@[es[
                            i
                        ].0@] == es[i].1
                    &&& forall|i: int|
                        0 <= i < j && m0.dom().contains((#[trigger] es[i]).0@) ==> self@.dom().contains(
                            bis_of(es[i].0@),
                        ) && self@[bis_of(es[i].0@)] == es[i].1
                    &&& forall|k: Seq<char>|
                        #![trigger self@.dom().contains(k)]
                        self@.dom().contains(k) ==> m0.dom().contains(k) || (exists|i: int|
                            0 <= i < j && k == (#[trigger] es[i]).0@) || (exists|i: int|
                            0 <= i < j && m0.dom().contains((#[trigger] es[i]).0@) && k == bis_of(
                                es[i].0@,
                            ))
                },
            decreases n - j,
        {
            let ghost kj = es[j as int].0@;
            let name = other.entries[j].0.clone();
            let h = other.entries[j].1;
            if self.hasCommand(name.as_str()) {
                proof {
                    if fresh && !m0.dom().contains(kj) {
                        assert(self@.dom().contains(kj));
                        if exists|i: int| 0 <= i < j && kj == (#[trigger] es[i]).0@ {
                            let i = choose|i: int| 0 <= i < j && kj == (#[trigger] es[i]).0@;
                            assert(es[i].0@ != es[j as int].0@);
                            assert(false);
                        } else {
                            let i = choose|i: int|
                                0 <= i < j && m0.dom().contains((#[trigger] es[i]).0@) && kj
                                    == bis_of(es[i].0@);
                            assert(other@.dom().contains(es[i].0@));
                            assert(!other@.dom().contains(bis_of(es[i].0@)));
                            assert(other@.dom().contains(kj));
                            assert(false);
                        }
                    }
                }
                let bis = name.concat("_bis");
                proof {
                    assert(bis@ == bis_of(kj));
                    if fresh {
                        assert(m0.dom().contains(kj));
                        assert(other@.dom().contains(kj));
                        assert(!m0.dom().contains(bis_of(kj)));
                        assert(!other@.dom().contains(bis_of(kj)));
                        assert forall|i: int|
                            0 <= i < j && m0.dom().contains(
                                (#[trigger] es[i]).0@,
                            ) implies bis_of(es[i].0@) != bis_of(kj) by {
                            if bis_of(es[i].0@) == bis_of(kj) {
                                lemma_bis_injective(es[i].0@, kj);
                            }
                        }
                        assert forall|i: int|
                            0 <= i < j && !m0.dom().contains(
                                (#[trigger] es[i]).0@,
                            ) implies es[i].0@ != bis_of(kj) by {
                            assert(other@.dom().contains(es[i].0@));
                        }
                    }
                }
                self.addCommand(bis, h);
            } else {
                proof {
                    assert(!m0.dom().contains(kj));
                    if fresh {
                        assert forall|i: int|
                            0 <= i < j && m0.dom().contains((#[trigger] es[i]).0@) implies bis_of(
                            es[i].0@,
                        ) != kj by {
                            assert(other@.dom().contains(es[i].0@));
                            assert(!other@.dom().contains(bis_of(es[i].0@)));
                            assert(other@.dom().contains(kj));
                        }
                    }
                }
                self.addCommand(name, h);
            }
            j += 1;
        }
        proof {
            assert forall|k: Seq<char>|
                other@.dom().contains(k) && !m0.dom().contains(k) && fresh implies self@.dom().contains(
                k,
            ) && self@[k] == other@[k] by {
                let i = choose|i: int| 0 <= i < es.len() && (#[trigger] es[i]).0@ == k;
                lemma_map_of_index(es, i);
            }
            assert forall|k: Seq<char>|
                other@.dom().contains(k) && m0.dom().contains(k) && fresh implies self@.dom().contains(
                bis_of(k),
            ) && self@[bis_of(k)] == other@[k] by {
                let i = choose|i: int| 0 <= i < es.len() && (#[trigger] es[i]).0@ == k;
                lemma_map_of_index(es, i);
            }
            assert forall|k: Seq<char>|
                #[trigger] self@.dom().contains(k) && !m0.dom().contains(k)
                    && !other@.dom().contains(k) implies exists|nm: Seq<char>|
                #[trigger] other@.dom().contains(nm) && k == bis_of(nm) by {
                let i = choose|i: int|
                    0 <= i < es.len() && (k == (#[trigger] es[i]).0@ || k == bis_of(es[i].0@));
                assert(other@.dom().contains(es[i].0@));
                if k == es[i].0@ {
                    assert(false);
                }
                assert(k == bis_of(es[i].0@));
            }
            if fresh {
                assert forall|k: Seq<char>|
                    #[trigger] self@.dom().contains(k) && !m0.dom().contains(k)
                        && !other@.dom().contains(k) implies exists|nm: Seq<char>|
                    #[trigger] other@.dom().contains(nm) && m0.dom().contains(nm) && k == bis_of(
                    nm,
                ) by {
                    if exists|i: int| 0 <= i < es.len() && k == (#[trigger] es[i]).0@ {
                        let i = choose|i: int| 0 <= i < es.len() && k == (#[trigger] es[i]).0@;
                        assert(other@.dom().contains(es[i].0@));
                        assert(false);
                    } else {
                        let i = choose|i: int|
                            0 <= i < es.len() && m0.dom().contains((#[trigger] es[i]).0@) && k
                                == bis_of(es[i].0@);
                        assert(other@.dom().contains(es[i].0@));
                    }
                }
            }
        }
    }
}

/// Law: immediately after a name is registered, the registry has it.
pub proof fn lemma_register_then_has<H>(r: Map<Seq<char>, H>, n: Seq<char>, h: H)
    ensures
        r.insert(n, h).dom().contains(n),
{
}

/// Law: registering the same name and handler twice leaves the registry
/// exactly as registering it once does.
pub proof fn lemma_register_idempotent<H>(r: Map<Seq<char>, H>, n: Seq<char>, h: H)
    ensures
        r.insert(n, h).insert(n, h) == r.insert(n, h),
{
    assert(r.insert(n, h).insert(n, h) =~= r.insert(n, h));
}

/// Law: a combined registry contains every name of `a` and every name of
/// `b`; on a name in both, the handler from `b` is retained, and a name
/// only in `a` keeps `a`'s handler.
pub proof fn lemma_combine_right_bias<H>(a: Map<Seq<char>, H>, b: Map<Seq<char>, H>, k: Seq<char>)
    ensures
        a.union_prefer_right(b).dom().contains(k) <==> (a.dom().contains(k) || b.dom().contains(
            k,
        )),
        b.dom().contains(k) ==> a.union_prefer_right(b)[k] == b[k],
        a.dom().contains(k) && !b.dom().contains(k) ==> a.union_prefer_right(b)[k] == a[k],
{
}

impl<H: Handler> CLI<H> {
    /// Dispatches one command: resolves the name and invokes its handler
    /// with the given arguments, or reports the name as unknown.
    pub fn executeCommand(&self, commandName: String, args: Vec<String>) -> (r: Result<
        (),
        UnknownCommandError,
    >)
        requires
            self.wf(),
        ensures
            r is Ok <==> self@.dom().contains(commandName@),
            r matches Err(e) ==> e.name@ == commandName@,
    {
        proof {
            lemma_map_of_contains(self.entries@, commandName@);
        }
        match self.find_index(commandName.as_str()) {
            Some(i) => {
                self.entries[i].1.call(args);
                Ok(())
            }
            None => Err(UnknownCommandError { name: commandName }),
        }
    }

    /// Dispatches several commands in order, each with the same arguments,
    /// stopping at the first unknown name: commands after it are not run.
    pub fn executeCommands(&self, commandNames: Vec<String>, args: Vec<String>) -> (r: Result<
        (),
        UnknownCommandError,
    >)
        requires
            self.wf(),
        ensures
            r is Ok <==> (forall|i: int|
                0 <= i < commandNames@.len() ==> self@.dom().contains(
                    (#[trigger] commandNames@[i])@,
                )),
            r matches Err(e) ==> exists|i: int|
                {
                    &&& 0 <= i < commandNames@.len()
                    &&& e.name@ == (#[trigger] commandNames@[i])@
                    &&& !self@.dom().contains(commandNames@[i]@)
                    &&& forall|j: int| 0 <= j < i ==> self@.dom().contains(commandNames@[j]@)
                },
    {
        let n = commandNames.len();
        let mut idx: usize = 0;
        while idx < n
            invariant
                self.wf(),
                n == commandNames@.len(),
                0 <= idx <= n,
                forall|j: int|
                    0 <= j < idx ==> self@.dom().contains((#[trigger] commandNames@[j])@),
            decreases n - idx,
        {
            let name = commandNames[idx].clone();
            match self.executeCommand(name, args.clone()) {
                Ok(()) => {}
                Err(e) => {
                    return Err(e);
                }
            }
            idx += 1;
        }
        Ok(())
    }
}

} // verus!
