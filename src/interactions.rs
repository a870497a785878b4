use vstd::prelude::*;

verus! {

/// A subject identifier paired with the ordered list of its object identifiers.
pub type Entry = (String, Vec<String>);

/// The mathematical form of an entry.
pub type EntryView = (Seq<char>, Seq<Seq<char>>);

/// No two entries share a subject.
pub open spec fn keys_unique(s: Seq<EntryView>) -> bool {
    forall|i: int, j: int| 0 <= i < s.len() && 0 <= j < s.len() && i != j ==> s[i].0 != s[j].0
}

/// The subjects of a sequence of entries, in order.
pub open spec fn keys_of(s: Seq<EntryView>) -> Seq<Seq<char>> {
    s.map_values(|e: EntryView| e.0)
}

/// The mapping from subject to objects that a sequence of entries denotes.
pub open spec fn as_map(s: Seq<EntryView>) -> Map<Seq<char>, Seq<Seq<char>>> {
    Map::new(
        |k: Seq<char>| exists|i: int| 0 <= i < s.len() && s[i].0 == k,
        |k: Seq<char>| s[choose|i: int| 0 <= i < s.len() && s[i].0 == k].1,
    )
}

/// Every subject of the mapping has at least one object.
pub open spec fn all_nonempty(m: Map<Seq<char>, Seq<Seq<char>>>) -> bool {
    forall|k: Seq<char>| m.contains_key(k) ==> m[k].len() > 0
}

/// The flattened (subject, object) pairs of a sequence of entries, entry by entry.
pub open spec fn flat_pairs(s: Seq<EntryView>) -> Seq<(Seq<char>, Seq<char>)>
    decreases s.len(),
{
    if s.len() == 0 {
        Seq::empty()
    } else {
        flat_pairs(s.drop_last()) + pairs_of(s.last())
    }
}

/// The pairs contributed by one entry: its subject with each of its objects.
pub open spec fn pairs_of(e: EntryView) -> Seq<(Seq<char>, Seq<char>)> {
    e.1.map_values(|o: Seq<char>| (e.0, o))
}

/// Looking up a key of a sequence with unique keys finds the entry holding it.
pub proof fn lemma_as_map_index(s: Seq<EntryView>, i: int)
    requires
        keys_unique(s),
        0 <= i < s.len(),
    ensures
        as_map(s).contains_key(s[i].0),
        as_map(s)[s[i].0] == s[i].1,
{
    let k = s[i].0;
    assert(exists|j: int| 0 <= j < s.len() && s[j].0 == k);
    let j = choose|j: int| 0 <= j < s.len() && s[j].0 == k;
    assert(j == i);
}

/// Replacing the entry of `k` with `(k, v)`, or appending `(k, v)` where `k` is
/// absent, maps `k` to `v` and leaves every other subject as it was.
pub proof fn lemma_as_map_replace_or_append(
    old: Seq<EntryView>,
    nv: Seq<EntryView>,
    k: Seq<char>,
    v: Seq<Seq<char>>,
)
    requires
        keys_unique(old),
        keys_unique(nv),
        nv.len() == old.len() ==> as_map(old).contains_key(k),
        nv.len() == old.len() || (nv.len() == old.len() + 1 && nv[old.len() as int] == (k, v)),
        forall|j: int| 0 <= j < old.len() && old[j].0 != k ==> #[trigger] nv[j] == old[j],
        forall|j: int| 0 <= j < old.len() && old[j].0 == k ==> #[trigger] nv[j] == (k, v),
    ensures
        as_map(nv) == as_map(old).insert(k, v),
{
    assert forall|key: Seq<char>|
        as_map(nv).contains_key(key) == as_map(old).insert(k, v).contains_key(key) by {
        if as_map(nv).contains_key(key) && key != k {
            let j = choose|j: int| 0 <= j < nv.len() && nv[j].0 == key;
            if j < old.len() {
                assert(old[j].0 == key);
            }
        }
        if as_map(old).contains_key(key) {
            let j = choose|j: int| 0 <= j < old.len() && old[j].0 == key;
            assert(nv[j].0 == key);
        }
        if key == k && nv.len() > old.len() {
            assert(nv[old.len() as int].0 == key);
        }
    }
    assert forall|key: Seq<char>| #[trigger]
        as_map(nv).contains_key(key) implies as_map(nv)[key] == as_map(old).insert(k, v)[key] by {
        let j = choose|j: int| 0 <= j < nv.len() && nv[j].0 == key;
        lemma_as_map_index(nv, j);
        if key != k {
            lemma_as_map_index(old, j);
        }
    }
    assert(as_map(nv) =~= as_map(old).insert(k, v));
}

/// An interaction map: subjects with their objects, in order of first insertion.
pub struct InteractionMap {
    entries: Vec<Entry>,
}

impl InteractionMap {
    pub closed spec fn view(&self) -> Seq<EntryView> {
        self.entries.deep_view()
    }

    pub open spec fn wf(&self) -> bool {
        keys_unique(self.view())
    }

    pub open spec fn map(&self) -> Map<Seq<char>, Seq<Seq<char>>> {
        as_map(self.view())
    }

    /// An empty interaction map.
    pub fn new() -> (r: InteractionMap)
        ensures
            r.wf(),
            r.view() == Seq::<EntryView>::empty(),
            r.map() == Map::<Seq<char>, Seq<Seq<char>>>::empty(),
    {
        let r = InteractionMap { entries: Vec::new() };
        assert(r.map() =~= Map::<Seq<char>, Seq<Seq<char>>>::empty());
        r
    }

    /// The number of subjects.
    pub fn len(&self) -> (r: usize)
        ensures
            r == self.view().len(),
    {
        self.entries.len()
    }

    /// The entry at position `i`, in order of first insertion.
    pub fn entry(&self, i: usize) -> (r: &Entry)
        requires
            i < self.view().len(),
        ensures
            r.deep_view() == self.view()[i as int],
    {
        &self.entries[i]
    }

    /// The position of `subject`, if it is present.
    pub fn position(&self, subject: &String) -> (r: Option<usize>)
        ensures
            match r {
                Some(i) => i < self.view().len() && self.view()[i as int].0 == subject@,
                None => !self.map().contains_key(subject@),
            },
    {
        let mut i: usize = 0;
        while i < self.entries.len()
            invariant
                i <= self.entries.len(),
                self.view() == self.entries.deep_view(),
                forall|j: int| 0 <= j < i ==> self.view()[j].0 != subject@,
            decreases self.entries.len() - i,
        {
            if self.entries[i].0 == *subject {
                return Some(i);
            }
            i += 1;
        }
        None
    }

    /// The objects recorded for `subject`, if any.
    pub fn get(&self, subject: &String) -> (r: Option<Vec<String>>)
        requires
            self.wf(),
        ensures
            match r {
                Some(v) => self.map().contains_key(subject@) && v.deep_view() == self.map()[subject@],
                None => !self.map().contains_key(subject@),
            },
    {
        match self.position(subject) {
            Some(i) => {
                proof {
                    lemma_as_map_index(self.view(), i as int);
                }
                Some(self.entries[i].1.clone())
            },
            None => None,
        }
    }

    /// Records `objects` under `subject`, replacing what was recorded there before.
    /// A new subject is placed after all others; an existing one keeps its place.
    pub fn insert(&mut self, subject: String, objects: Vec<String>)
        requires
            old(self).wf(),
        ensures
            final(self).wf(),
            final(self).map() == old(self).map().insert(subject@, objects.deep_view()),
            keys_of(final(self).view()) == if old(self).map().contains_key(subject@) {
                keys_of(old(self).view())
            } else {
                keys_of(old(self).view()).push(subject@)
            },
            !old(self).map().contains_key(subject@) ==> final(self).view() == old(self).view().push(
                (subject@, objects.deep_view()),
            ),
    {
        let ghost old_view = self.view();
        let ghost k = subject@;
        let ghost v = objects.deep_view();
        match self.position(&subject) {
            Some(i) => {
                self.entries.set(i, (subject, objects));
                proof {
                    let nv = self.view();
                    assert(nv =~= old_view.update(i as int, (k, v)));
                    assert forall|a: int, b: int|
                        0 <= a < nv.len() && 0 <= b < nv.len() && a != b implies nv[a].0
                        != nv[b].0 by {
                        assert(nv[a].0 == old_view[a].0);
                        assert(nv[b].0 == old_view[b].0);
                    }
                    assert(keys_of(nv) =~= keys_of(old_view));
                    lemma_as_map_replace_or_append(old_view, nv, k, v);
                }
            },
            None => {
                self.entries.push((subject, objects));
                proof {
                    let nv = self.view();
                    assert(nv =~= old_view.push((k, v)));
                    assert(keys_of(nv) =~= keys_of(old_view).push(k));
                    assert forall|a: int, b: int|
                        0 <= a < nv.len() && 0 <= b < nv.len() && a != b implies nv[a].0
                        != nv[b].0 by {
                        if a == old_view.len() && nv[a].0 == nv[b].0 {
                            assert(old_view[b].0 == k);
                            assert(as_map(old_view).contains_key(k));
                        }
                        if b == old_view.len() && nv[a].0 == nv[b].0 {
                            assert(old_view[a].0 == k);
                            assert(as_map(old_view).contains_key(k));
                        }
                    }
                    lemma_as_map_replace_or_append(old_view, nv, k, v);
                }
            },
        }
    }

    /// All (subject, object) pairs: the entries in order, and within an entry
    /// its objects in order.
    pub fn flatten(&self) -> (r: Vec<(String, String)>)
        ensures
            r.deep_view() == flat_pairs(self.view()),
    {
        let mut r: Vec<(String, String)> = Vec::new();
        let mut i: usize = 0;
        while i < self.entries.len()
            invariant
                i <= self.entries.len(),
                self.view() == self.entries.deep_view(),
                r.deep_view() == flat_pairs(self.view().take(i as int)),
            decreases self.entries.len() - i,
        {
            let subject = &self.entries[i].0;
            let objects = &self.entries[i].1;
            let ghost before = r.deep_view();
            let mut j: usize = 0;
            while j < objects.len()
                invariant
                    j <= objects.len(),
                    i < self.entries.len(),
                    subject == &self.entries[i as int].0,
                    objects == &self.entries[i as int].1,
                    r.deep_view() == before + pairs_of(self.view()[i as int]).take(j as int),
                decreases objects.len() - j,
            {
                let ghost rb = r.deep_view();
                r.push((subject.clone(), objects[j].clone()));
                proof {
                    assert(r.deep_view() =~= rb.push((subject@, objects[j as int]@)));
                    assert(pairs_of(self.view()[i as int]).take(j as int + 1) =~= pairs_of(
                        self.view()[i as int],
                    ).take(j as int).push((subject@, objects[j as int]@)));
                    assert(r.deep_view() =~= before + pairs_of(self.view()[i as int]).take(
                        j as int + 1,
                    ));
                }
                j += 1;
            }
            proof {
                assert(pairs_of(self.view()[i as int]).take(j as int) =~= pairs_of(
                    self.view()[i as int],
                ));
                assert(self.view().take(i as int + 1).drop_last() =~= self.view().take(i as int));
            }
            i += 1;
        }
        proof {
            assert(self.view().take(i as int) =~= self.view());
        }
        r
    }
}

} // verus!
