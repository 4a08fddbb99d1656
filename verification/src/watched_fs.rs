//! Snapshots of the watched paths and the difference between two of them.

use vstd::hash_map::StringHashMap;
use vstd::prelude::*;

use crate::text::push_char;

verus! {

/// When a path was last modified: whole seconds since the Unix epoch (negative before
/// it) and the nanoseconds past that second.
#[derive(Debug, Clone, Copy, PartialEq, Eq, Structural)]
pub struct Timestamp {
    pub secs: i64,
    pub nanos: u32,
}

/// A type to track the differences between two WatchedFS structs.
#[derive(Debug, PartialEq)]
pub enum FSDifference {
    Unchanged,
    Modified { path: String, mtime: Timestamp },
    New { path: String, mtime: Timestamp },
    Deleted { path: String },
}

/// A difference as a plain value.
pub enum Difference {
    Unchanged,
    Modified { path: Seq<char>, mtime: Timestamp },
    New { path: Seq<char>, mtime: Timestamp },
    Deleted { path: Seq<char> },
}

impl View for FSDifference {
    type V = Difference;

    open spec fn view(&self) -> Difference {
        match *self {
            FSDifference::Unchanged => Difference::Unchanged,
            FSDifference::Modified { path, mtime } => Difference::Modified { path: path@, mtime },
            FSDifference::New { path, mtime } => Difference::New { path: path@, mtime },
            FSDifference::Deleted { path } => Difference::Deleted { path: path@ },
        }
    }
}

/// A path and the time at which it was last modified.
pub type Fact = (Seq<char>, Timestamp);

/// What a single fact of the current snapshot shows against the previous one: a path
/// that is new, one that was modified, or nothing.
pub open spec fn change_of(fact: Fact, previous: Map<Seq<char>, Timestamp>) -> Option<Difference> {
    if !previous.contains_key(fact.0) {
        Some(Difference::New { path: fact.0, mtime: fact.1 })
    } else if previous[fact.0] != fact.1 {
        Some(Difference::Modified { path: fact.0, mtime: fact.1 })
    } else {
        None
    }
}

/// The change that the first of `current` shows which shows one.
pub open spec fn first_change(current: Seq<Fact>, previous: Map<Seq<char>, Timestamp>) -> Option<
    Difference,
>
    decreases current.len(),
{
    if current.len() == 0 {
        None
    } else {
        match change_of(current.first(), previous) {
            Some(d) => Some(d),
            None => first_change(current.drop_first(), previous),
        }
    }
}

/// The first path of `previous` that `current` no longer holds.
pub open spec fn first_deleted(previous: Seq<Fact>, current: Map<Seq<char>, Timestamp>) -> Option<
    Difference,
>
    decreases previous.len(),
{
    if previous.len() == 0 {
        None
    } else if !current.contains_key(previous.first().0) {
        Some(Difference::Deleted { path: previous.first().0 })
    } else {
        first_deleted(previous.drop_first(), current)
    }
}

/// The one difference that a comparison reports. The facts of the current snapshot are
/// gone through in their order and the first that is new or modified is reported; where
/// there is none, the first path of the previous snapshot that has gone.
pub open spec fn difference(
    current: Seq<Fact>,
    current_map: Map<Seq<char>, Timestamp>,
    previous: Seq<Fact>,
    previous_map: Map<Seq<char>, Timestamp>,
) -> Difference {
    match first_change(current, previous_map) {
        Some(d) => d,
        None => match first_deleted(previous, current_map) {
            Some(d) => d,
            None => Difference::Unchanged,
        },
    }
}

/// `map` holds the facts of `facts` and nothing else.
pub open spec fn holds(map: Map<Seq<char>, Timestamp>, facts: Seq<Fact>) -> bool {
    &&& forall|i: int|
        0 <= i < facts.len() ==> map.contains_key((#[trigger] facts[i]).0) && map[facts[i].0]
            == facts[i].1
    &&& forall|k: Seq<char>| #[trigger]
        map.contains_key(k) ==> exists|i: int| 0 <= i < facts.len() && (#[trigger] facts[i]).0 == k
}

/// No path occurs twice in `facts`.
pub open spec fn distinct_paths(facts: Seq<Fact>) -> bool {
    forall|i: int, j: int|
        0 <= i < j < facts.len() ==> (#[trigger] facts[i]).0 != (#[trigger] facts[j]).0
}

/// Whether `facts` holds a time for `path`.
pub open spec fn knows(facts: Seq<Fact>, path: Seq<char>) -> bool {
    exists|i: int| 0 <= i < facts.len() && (#[trigger] facts[i]).0 == path
}

/// `facts` after `path` was found with `mtime`: a known path keeps its place and takes the
/// new time, a new one goes to the end.
pub open spec fn recorded(facts: Seq<Fact>, path: Seq<char>, mtime: Timestamp) -> Seq<Fact> {
    if knows(facts, path) {
        let i = choose|i: int| 0 <= i < facts.len() && (#[trigger] facts[i]).0 == path;
        facts.update(i, (path, mtime))
    } else {
        facts.push((path, mtime))
    }
}

/// A path that was looked at, with its time where it is there and can be read.
pub type Sighting = (Seq<char>, Option<Timestamp>);

/// `facts` after one sighting: a path without a time leaves no trace.
pub open spec fn sighted(facts: Seq<Fact>, sighting: Sighting) -> Seq<Fact> {
    match sighting.1 {
        Some(mtime) => recorded(facts, sighting.0, mtime),
        None => facts,
    }
}

/// The times of the paths after a look at `path`.
pub open spec fn seen(
    map: Map<Seq<char>, Timestamp>,
    path: Seq<char>,
    mtime: Option<Timestamp>,
) -> Map<Seq<char>, Timestamp> {
    match mtime {
        Some(mtime) => map.insert(path, mtime),
        None => map,
    }
}

/// `facts` after each of `sightings` in turn.
pub open spec fn sighted_all(facts: Seq<Fact>, sightings: Seq<Sighting>) -> Seq<Fact>
    decreases sightings.len(),
{
    if sightings.len() == 0 {
        facts
    } else {
        sighted(sighted_all(facts, sightings.drop_last()), sightings.last())
    }
}

/// The paths of `facts`, each followed by a line feed.
pub open spec fn listing(facts: Seq<Fact>) -> Seq<char>
    decreases facts.len(),
{
    if facts.len() == 0 {
        Seq::empty()
    } else {
        listing(facts.drop_last()) + facts.last().0 + seq!['\n']
    }
}

/// The paths of `facts` in their order.
pub open spec fn paths_of(facts: Seq<Fact>) -> Seq<Seq<char>> {
    Seq::new(facts.len(), |i: int| facts[i].0)
}

/// Where no fact before the one at `i` shows a change and that one does, its change is the
/// first.
pub proof fn lemma_first_change_at(current: Seq<Fact>, previous: Map<Seq<char>, Timestamp>, i: int)
    requires
        0 <= i < current.len(),
        forall|k: int| 0 <= k < i ==> change_of(#[trigger] current[k], previous) is None,
        change_of(current[i], previous) is Some,
    ensures
        first_change(current, previous) == change_of(current[i], previous),
    decreases i,
{
    if i > 0 {
        let rest = current.drop_first();
        assert(forall|k: int| 0 <= k < i - 1 ==> rest[k] == current[k + 1]);
        lemma_first_change_at(rest, previous, i - 1);
    }
}

/// Where no fact shows a change there is no first change.
pub proof fn lemma_no_change(current: Seq<Fact>, previous: Map<Seq<char>, Timestamp>)
    requires
        forall|k: int| 0 <= k < current.len() ==> change_of(#[trigger] current[k], previous) is None,
    ensures
        first_change(current, previous) is None,
    decreases current.len(),
{
    if current.len() > 0 {
        let rest = current.drop_first();
        assert(forall|k: int| 0 <= k < rest.len() ==> rest[k] == current[k + 1]);
        lemma_no_change(rest, previous);
    }
}

/// Where every path before the one at `j` is still held and that one is not, it is the
/// first that has gone.
pub proof fn lemma_first_deleted_at(previous: Seq<Fact>, current: Map<Seq<char>, Timestamp>, j: int)
    requires
        0 <= j < previous.len(),
        forall|k: int| 0 <= k < j ==> current.contains_key((#[trigger] previous[k]).0),
        !current.contains_key(previous[j].0),
    ensures
        first_deleted(previous, current) == Some(Difference::Deleted { path: previous[j].0 }),
    decreases j,
{
    if j > 0 {
        let rest = previous.drop_first();
        assert(forall|k: int| 0 <= k < j - 1 ==> rest[k] == previous[k + 1]);
        lemma_first_deleted_at(rest, current, j - 1);
    }
}

/// Where every path is still held none has gone.
pub proof fn lemma_none_deleted(previous: Seq<Fact>, current: Map<Seq<char>, Timestamp>)
    requires
        forall|k: int| 0 <= k < previous.len() ==> current.contains_key((#[trigger] previous[k]).0),
    ensures
        first_deleted(previous, current) is None,
    decreases previous.len(),
{
    if previous.len() > 0 {
        let rest = previous.drop_first();
        assert(forall|k: int| 0 <= k < rest.len() ==> rest[k] == previous[k + 1]);
        lemma_none_deleted(rest, current);
    }
}

/// A data structure to manage the watched paths on the filesystem and their last modified time
pub struct WatchedFS {
    /// the paths in the order in which they were first found, each with its time
    entries: Vec<(String, Timestamp)>,
    /// where each path stands in `entries`
    index: StringHashMap<usize>,
}

impl View for WatchedFS {
    type V = Map<Seq<char>, Timestamp>;

    /// The time of each path that was found.
    closed spec fn view(&self) -> Map<Seq<char>, Timestamp> {
        Map::new(
            |k: Seq<char>| self.index@.contains_key(k),
            |k: Seq<char>| self.entries@[self.index@[k] as int].1,
        )
    }
}

impl WatchedFS {
    /// The facts in the order in which their paths were first found.
    pub closed spec fn facts(&self) -> Seq<Fact> {
        Seq::new(self.entries@.len(), |i: int| (self.entries@[i].0@, self.entries@[i].1))
    }

    /// The index knows every path at its place and nothing else.
    pub closed spec fn wf(&self) -> bool {
        &&& forall|i: int|
            0 <= i < self.entries@.len() ==> self.index@.contains_key(
                (#[trigger] self.entries@[i]).0@,
            ) && self.index@[self.entries@[i].0@] == i
        &&& forall|k: Seq<char>| #[trigger]
            self.index@.contains_key(k) ==> self.index@[k] < self.entries@.len()
                && self.entries@[self.index@[k] as int].0@ == k
    }

    /// The view of a snapshot holds exactly its facts, and no path occurs twice in them.
    pub proof fn lemma_facts(&self)
        requires
            self.wf(),
        ensures
            holds(self@, self.facts()),
            distinct_paths(self.facts()),
    {
        let facts = self.facts();
        assert forall|i: int| 0 <= i < facts.len() implies self@.contains_key(
            (#[trigger] facts[i]).0,
        ) && self@[facts[i].0] == facts[i].1 by {
            assert(self.index@.contains_key(self.entries@[i].0@));
        }
        assert forall|k: Seq<char>| #[trigger] self@.contains_key(k) implies exists|i: int|
            0 <= i < facts.len() && (#[trigger] facts[i]).0 == k by {
            let i = self.index@[k] as int;
            assert(facts[i].0 == k);
        }
        assert forall|i: int, j: int| 0 <= i < j < facts.len() implies (#[trigger] facts[i]).0 != (
        #[trigger] facts[j]).0 by {
            assert(self.index@[self.entries@[i].0@] == i);
            assert(self.index@[self.entries@[j].0@] == j);
        }
    }

    /// Creates a new WatchedFS with a given capacity
    /// Note: the capacity will expand automatically as needed
    pub fn new(size: usize) -> (r: Self)
        ensures
            r.wf(),
            r@ == Map::<Seq<char>, Timestamp>::empty(),
            r.facts() == Seq::<Fact>::empty(),
    {
        let r = WatchedFS { entries: Vec::with_capacity(size), index: StringHashMap::with_capacity(size) };
        assert(r@ =~= Map::<Seq<char>, Timestamp>::empty());
        assert(r.facts() =~= Seq::<Fact>::empty());
        r
    }

    /// How many paths have been found
    pub fn len(&self) -> (r: usize)
        requires
            self.wf(),
        ensures
            r == self@.len(),
            r == self.facts().len(),
    {
        proof {
            self.lemma_len();
        }
        self.entries.len()
    }

    /// As many paths are known as facts are held.
    proof fn lemma_len(&self)
        requires
            self.wf(),
        ensures
            self@.dom().finite(),
            self@.len() == self.entries@.len(),
    {
        let n = self.entries@.len();
        let keys = Seq::new(n, |i: int| self.entries@[i].0@);
        assert(keys.no_duplicates()) by {
            assert forall|i: int, j: int| 0 <= i < keys.len() && 0 <= j < keys.len() && i != j implies keys[i] != keys[j] by {
                assert(self.index@[self.entries@[i].0@] == i);
                assert(self.index@[self.entries@[j].0@] == j);
            }
        }
        keys.unique_seq_to_set();
        assert(keys.to_set() =~= self@.dom()) by {
            assert forall|k: Seq<char>| self@.dom().contains(k) implies keys.to_set().contains(k) by {
                let i = self.index@[k] as int;
                assert(keys[i] == k);
            }
            assert forall|k: Seq<char>| keys.to_set().contains(k) implies self@.dom().contains(k) by {
                let i = choose|i: int| 0 <= i < keys.len() && keys[i] == k;
                assert(self.index@.contains_key(self.entries@[i].0@));
            }
        }
    }

    /// The time at which `path` was last modified, where the path was found
    pub fn get(&self, path: &str) -> (r: Option<Timestamp>)
        requires
            self.wf(),
        ensures
            r == if self@.contains_key(path@) {
                Some(self@[path@])
            } else {
                None
            },
    {
        match self.index.get(path) {
            Some(i) => Some(self.entries[*i].1),
            None => None,
        }
    }

    /// Returns the paths in the order in which they were first found
    pub fn paths(&self) -> (r: Vec<String>)
        ensures
            r.deep_view() == paths_of(self.facts()),
    {
        let mut r: Vec<String> = Vec::with_capacity(self.entries.len());
        let mut i: usize = 0;
        while i < self.entries.len()
            invariant
                i <= self.entries.len(),
                r.deep_view() == paths_of(self.facts()).take(i as int),
            decreases self.entries.len() - i,
        {
            let ghost before = r.deep_view();
            let path = self.entries[i].0.clone();
            r.push(path);
            assert(r.deep_view() =~= before.push(path@));
            assert(r.deep_view() =~= paths_of(self.facts()).take(i + 1));
            i += 1;
        }
        assert(paths_of(self.facts()).take(self.entries.len() as int) =~= paths_of(self.facts()));
        r
    }

    /// Record that a given `path` exists, and was last modified at `mtime`
    pub fn found(&mut self, path: String, mtime: Timestamp)
        requires
            old(self).wf(),
        ensures
            final(self).wf(),
            final(self)@ == old(self)@.insert(path@, mtime),
            final(self).facts() == recorded(old(self).facts(), path@, mtime),
    {
        proof {
            old(self).lemma_facts();
        }
        let ghost facts = self.facts();
        let place: Option<usize> = match self.index.get(path.as_str()) {
            Some(i) => Some(*i),
            None => None,
        };
        match place {
            Some(i) => {
                assert(facts[i as int].0 == path@);
                assert(knows(facts, path@));
                self.entries[i].1 = mtime;
                proof {
                    let j = choose|j: int| 0 <= j < facts.len() && (#[trigger] facts[j]).0 == path@;
                    assert(j == i);
                    assert(self.facts() =~= facts.update(i as int, (path@, mtime)));
                    assert(self@ =~= old(self)@.insert(path@, mtime));
                }
            },
            None => {
                assert(!knows(facts, path@)) by {
                    if knows(facts, path@) {
                        let j = choose|j: int|
                            0 <= j < facts.len() && (#[trigger] facts[j]).0 == path@;
                        assert(old(self).index@.contains_key(old(self).entries@[j].0@));
                    }
                }
                let i = self.entries.len();
                self.index.insert(path.clone(), i);
                self.entries.push((path, mtime));
                proof {
                    assert(self.facts() =~= facts.push((path@, mtime)));
                    assert(self@ =~= old(self)@.insert(path@, mtime));
                }
            },
        }
    }

    /// Record what a look at `path` gave: its time, or `None` where the path is not there
    /// or cannot be read, which leaves no trace.
    pub fn find(&mut self, path: String, mtime: Option<Timestamp>)
        requires
            old(self).wf(),
        ensures
            final(self).wf(),
            final(self)@ == seen(old(self)@, path@, mtime),
            final(self).facts() == sighted(old(self).facts(), (path@, mtime)),
    {
        match mtime {
            Some(mtime) => self.found(path, mtime),
            None => {},
        }
    }

    /// Compares the current state of the file system against a previous state. Returns an enum
    /// indicating the first detected difference, if any
    pub fn compare(&self, prev_fs: WatchedFS) -> (r: FSDifference)
        requires
            self.wf(),
            prev_fs.wf(),
        ensures
            r@ == difference(self.facts(), self@, prev_fs.facts(), prev_fs@),
            r@ is Unchanged <==> self@ == prev_fs@,
            r@ matches Difference::New { path, mtime } ==> !prev_fs@.contains_key(path)
                && self@.contains_key(path) && self@[path] == mtime,
            r@ matches Difference::Modified { path, mtime } ==> prev_fs@.contains_key(path)
                && prev_fs@[path] != mtime && self@.contains_key(path) && self@[path] == mtime,
            r@ matches Difference::Deleted { path } ==> prev_fs@.contains_key(path)
                && !self@.contains_key(path) && self@.submap_of(prev_fs@),
    {
        let ghost current = self.facts();
        let ghost previous = prev_fs.facts();
        let ghost previous_map = prev_fs@;
        proof {
            self.lemma_facts();
            prev_fs.lemma_facts();
        }
        // ensure that all paths in the current filesystem existed in the previous filesystem
        let mut i: usize = 0;
        while i < self.entries.len()
            invariant
                i <= self.entries.len(),
                self.wf(),
                prev_fs.wf(),
                current == self.facts(),
                previous == prev_fs.facts(),
                previous_map == prev_fs@,
                holds(self@, current),
                forall|k: int| 0 <= k < i ==> change_of(#[trigger] current[k], previous_map) is None,
            decreases self.entries.len() - i,
        {
            let path = &self.entries[i].0;
            let mtime = self.entries[i].1;
            assert(current[i as int] == (path@, mtime));
            let place: Option<usize> = match prev_fs.index.get(path.as_str()) {
                Some(j) => Some(*j),
                None => None,
            };
            match place {
                Some(j) => {
                    // path existed, but now we must check the mtime
                    let prev_mtime = prev_fs.entries[j].1;
                    assert(previous_map[path@] == prev_mtime);
                    if mtime != prev_mtime {
                        proof {
                            lemma_first_change_at(current, previous_map, i as int);
                        }
                        return FSDifference::Modified { path: path.clone(), mtime };
                    }
                },
                None => {
                    // path did not exist in the previous filesystem
                    proof {
                        lemma_first_change_at(current, previous_map, i as int);
                    }
                    return FSDifference::New { path: path.clone(), mtime };
                },
            }
            i += 1;
        }
        proof {
            lemma_no_change(current, previous_map);
            assert(self@.submap_of(previous_map)) by {
                assert forall|k: Seq<char>| #[trigger] self@.dom().contains(k) implies previous_map.dom().contains(k)
                    && self@[k] == previous_map[k] by {
                    let n = choose|n: int| 0 <= n < current.len() && (#[trigger] current[n]).0 == k;
                    assert(change_of(current[n], previous_map) is None);
                }
            }
        }
        // a path that the previous filesystem still holds alone no longer exists
        let mut j: usize = 0;
        while j < prev_fs.entries.len()
            invariant
                j <= prev_fs.entries.len(),
                self.wf(),
                prev_fs.wf(),
                previous == prev_fs.facts(),
                previous_map == prev_fs@,
                holds(previous_map, previous),
                current == self.facts(),
                first_change(current, previous_map) is None,
                self@.submap_of(previous_map),
                forall|k: int| 0 <= k < j ==> self@.contains_key((#[trigger] previous[k]).0),
            decreases prev_fs.entries.len() - j,
        {
            assert(previous[j as int].0 == prev_fs.entries@[j as int].0@);
            if !self.index.contains_key(prev_fs.entries[j].0.as_str()) {
                proof {
                    lemma_first_deleted_at(previous, self@, j as int);
                }
                let path = prev_fs.entries[j].0.clone();
                return FSDifference::Deleted { path };
            }
            j += 1;
        }
        proof {
            lemma_none_deleted(previous, self@);
            assert(self@ =~= previous_map) by {
                assert forall|k: Seq<char>| #[trigger] previous_map.dom().contains(k) implies self@.dom().contains(k) by {
                    let n = choose|n: int| 0 <= n < previous.len() && (#[trigger] previous[n]).0 == k;
                    assert(self@.contains_key(previous[n].0));
                }
            }
        }
        FSDifference::Unchanged
    }

    /// The paths, one to a line; nothing at all where no path was found.
    pub fn to_string(&self) -> (r: String)
        ensures
            r@ == listing(self.facts()),
    {
        let mut r = String::new();
        let ghost facts = self.facts();
        let mut i: usize = 0;
        while i < self.entries.len()
            invariant
                i <= self.entries.len(),
                facts == self.facts(),
                r@ == listing(facts.take(i as int)),
            decreases self.entries.len() - i,
        {
            proof {
                assert(facts.take(i + 1).drop_last() =~= facts.take(i as int));
            }
            let ghost before = r@;
            r.append(self.entries[i].0.as_str());
            push_char(&mut r, '\n');
            assert(r@ =~= before + facts[i as int].0 + seq!['\n']);
            i += 1;
        }
        assert(facts.take(facts.len() as int) =~= facts);
        r
    }
}

impl Clone for WatchedFS {
    /// A snapshot of its own with the same facts in the same order.
    fn clone(&self) -> (r: Self)
        ensures
            self.wf() ==> r.wf() && r@ == self@ && r.facts() == self.facts(),
    {
        let n = self.entries.len();
        let mut entries: Vec<(String, Timestamp)> = Vec::with_capacity(n);
        let mut index: StringHashMap<usize> = StringHashMap::with_capacity(n);
        let mut i: usize = 0;
        while i < n
            invariant
                i <= n,
                n == self.entries@.len(),
                entries@.len() == i,
                forall|k: int|
                    0 <= k < i ==> (#[trigger] entries@[k]).0@ == self.entries@[k].0@ && entries@[k].1
                        == self.entries@[k].1,
                self.wf() ==> forall|k: Seq<char>| #[trigger]
                    index@.contains_key(k) <==> self.index@.contains_key(k) && self.index@[k] < i,
                self.wf() ==> forall|k: Seq<char>| #[trigger]
                    index@.contains_key(k) ==> index@[k] == self.index@[k],
            decreases n - i,
        {
            let path = self.entries[i].0.clone();
            let mtime = self.entries[i].1;
            proof {
                if self.wf() {
                    assert(self.index@.contains_key(self.entries@[i as int].0@));
                }
            }
            index.insert(path.clone(), i);
            entries.push((path, mtime));
            i += 1;
        }
        let r = WatchedFS { entries, index };
        proof {
            if self.wf() {
                assert forall|k: int| 0 <= k < r.entries@.len() implies r.index@.contains_key(
                    (#[trigger] r.entries@[k]).0@,
                ) && r.index@[r.entries@[k].0@] == k by {
                    assert(self.index@.contains_key(self.entries@[k].0@));
                }
                assert(r.wf());
                assert(r@ =~= self@);
                assert(r.facts() =~= self.facts());
            }
        }
        r
    }
}

/// A snapshot shows no difference against one that holds the same facts, in whatever
/// order they were found; against any other it shows one.
pub proof fn lemma_unchanged_iff_same(
    current: Seq<Fact>,
    current_map: Map<Seq<char>, Timestamp>,
    previous: Seq<Fact>,
    previous_map: Map<Seq<char>, Timestamp>,
)
    requires
        holds(current_map, current),
        holds(previous_map, previous),
    ensures
        difference(current, current_map, previous, previous_map) is Unchanged <==> current_map
            == previous_map,
{
    lemma_first_change_found(current, previous_map);
    lemma_first_deleted_found(previous, current_map);
    if current_map == previous_map {
        lemma_no_change(current, previous_map);
        lemma_none_deleted(previous, current_map);
    } else if difference(current, current_map, previous, previous_map) is Unchanged {
        assert(current_map =~= previous_map) by {
            assert forall|k: Seq<char>| #[trigger] current_map.dom().contains(k) implies previous_map.dom().contains(k)
                && current_map[k] == previous_map[k] by {
                let n = choose|n: int| 0 <= n < current.len() && (#[trigger] current[n]).0 == k;
                assert(change_of(current[n], previous_map) is None);
            }
            assert forall|k: Seq<char>| #[trigger] previous_map.dom().contains(k) implies current_map.dom().contains(k) by {
                let n = choose|n: int| 0 <= n < previous.len() && (#[trigger] previous[n]).0 == k;
                assert(current_map.contains_key(previous[n].0));
            }
        }
    }
}

/// There is a first change exactly where some fact shows one, and it is a path that is
/// new or modified.
pub proof fn lemma_first_change_found(current: Seq<Fact>, previous: Map<Seq<char>, Timestamp>)
    ensures
        first_change(current, previous) is None <==> forall|k: int|
            0 <= k < current.len() ==> change_of(#[trigger] current[k], previous) is None,
        first_change(current, previous) matches Some(d) ==> d is New || d is Modified,
    decreases current.len(),
{
    if current.len() > 0 {
        let rest = current.drop_first();
        lemma_first_change_found(rest, previous);
        assert(forall|k: int| 0 <= k < rest.len() ==> rest[k] == current[k + 1]);
        if first_change(current, previous) is None {
            assert forall|k: int| 0 <= k < current.len() implies change_of(
                #[trigger] current[k],
                previous,
            ) is None by {
                if k > 0 {
                    assert(rest[k - 1] == current[k]);
                }
            }
        }
    }
}

/// A path has gone exactly where some path of the previous snapshot is no longer held.
pub proof fn lemma_first_deleted_found(previous: Seq<Fact>, current: Map<Seq<char>, Timestamp>)
    ensures
        first_deleted(previous, current) is None <==> forall|k: int|
            0 <= k < previous.len() ==> current.contains_key((#[trigger] previous[k]).0),
        first_deleted(previous, current) matches Some(d) ==> d is Deleted,
    decreases previous.len(),
{
    if previous.len() > 0 {
        let rest = previous.drop_first();
        lemma_first_deleted_found(rest, current);
        assert(forall|k: int| 0 <= k < rest.len() ==> rest[k] == previous[k + 1]);
        if first_deleted(previous, current) is None {
            assert forall|k: int| 0 <= k < previous.len() implies current.contains_key(
                (#[trigger] previous[k]).0,
            ) by {
                if k > 0 {
                    assert(rest[k - 1] == previous[k]);
                }
            }
        }
    }
}

/// A snapshot shows no difference against a copy of itself.
pub proof fn lemma_copy_unchanged(facts: Seq<Fact>, map: Map<Seq<char>, Timestamp>)
    requires
        holds(map, facts),
    ensures
        difference(facts, map, facts, map) is Unchanged,
{
    lemma_unchanged_iff_same(facts, map, facts, map);
}

/// The snapshot that holds one path and nothing else.
pub open spec fn single(path: Seq<char>, mtime: Timestamp) -> (Seq<Fact>, Map<Seq<char>, Timestamp>) {
    (seq![(path, mtime)], Map::<Seq<char>, Timestamp>::empty().insert(path, mtime))
}

/// A path that is the only one before and after, with another time, is reported as
/// modified, with the new time.
pub proof fn lemma_single_modified(path: Seq<char>, before: Timestamp, now: Timestamp)
    requires
        before != now,
    ensures
        difference(single(path, now).0, single(path, now).1, single(path, before).0, single(
            path,
            before,
        ).1) == (Difference::Modified { path, mtime: now }),
{
    let current = single(path, now).0;
    assert(current.first() == (path, now));
}

/// A path that is found where nothing was before is reported as new, with its time.
pub proof fn lemma_single_new(path: Seq<char>, now: Timestamp)
    ensures
        difference(
            single(path, now).0,
            single(path, now).1,
            Seq::<Fact>::empty(),
            Map::<Seq<char>, Timestamp>::empty(),
        ) == (Difference::New { path, mtime: now }),
{
    let current = single(path, now).0;
    assert(current.first() == (path, now));
}

/// A path that was the only one and is found no more is reported as deleted.
pub proof fn lemma_single_deleted(path: Seq<char>, before: Timestamp)
    ensures
        difference(
            Seq::<Fact>::empty(),
            Map::<Seq<char>, Timestamp>::empty(),
            single(path, before).0,
            single(path, before).1,
        ) == (Difference::Deleted { path }),
{
    let previous = single(path, before).0;
    assert(previous.first() == (path, before));
}

} // verus!
