//! The registry of components, kept as a vector of entries sorted by name.
use vstd::prelude::*;
use crate::model::{
    all_ok_in, degraded_in, down_in, healthy_in, is_worst, lemma_worst_unique, lists, names_at, ok_in, strs_view, unknown_in, worst_in, Components,
};
use crate::order::{
    lemma_name_lt_irreflexive, lemma_name_lt_transitive, lemma_name_trichotomy,
    lemma_sorted_names_len, lemma_sorted_no_duplicates, name_less, name_lt, sorted_names,
};
use crate::status::Status;
use crate::summary::Summary;

verus! {

/// One registered component.
#[derive(Debug)]
struct Entry {
    name: String,
    status: Status,
}

/// Tracks health of multiple named components.
#[derive(Debug)]
pub struct HealthRegistry {
    entries: Vec<Entry>,
}

/// The names of a sequence of entries, in order.
spec fn entry_names(s: Seq<Entry>) -> Seq<Seq<char>> {
    s.map_values(|e: Entry| e.name@)
}

/// The map that a sequence of entries stands for.
spec fn entries_map(s: Seq<Entry>) -> Components {
    let names = entry_names(s);
    Map::new(|k: Seq<char>| names.contains(k), |k: Seq<char>| s[names.index_of(k)].status)
}

/// What the entries of a sorted vector stand for: the entry at `i` gives the
/// status of its name, and every name of the map has an entry.
proof fn lemma_entries_map(s: Seq<Entry>)
    requires
        sorted_names(entry_names(s)),
    ensures
        forall|i: int|
            0 <= i < s.len() ==> #[trigger] entries_map(s).dom().contains(entry_names(s)[i])
                && entries_map(s)[entry_names(s)[i]] == s[i].status,
        forall|k: Seq<char>| #[trigger]
            entries_map(s).dom().contains(k) ==> exists|i: int|
                0 <= i < s.len() && entry_names(s)[i] == k,
        entries_map(s).dom().finite(),
        entries_map(s).dom().len() == s.len(),
{
    let names = entry_names(s);
    lemma_sorted_no_duplicates(names);
    assert forall|i: int| 0 <= i < s.len() implies #[trigger] entries_map(s).dom().contains(
        names[i],
    ) && entries_map(s)[names[i]] == s[i].status by {
        assert(names.contains(names[i]));
        let j = names.index_of(names[i]);
        assert(names[j] == names[i]);
    }
    lemma_sorted_names_len(names, entries_map(s).dom());
}

/// Replacing the entry at `i` by one of the same name changes that name's
/// status and nothing else.
proof fn lemma_set_map(old: Seq<Entry>, new: Seq<Entry>, i: int, name: Seq<char>, status: Status)
    requires
        sorted_names(entry_names(old)),
        sorted_names(entry_names(new)),
        0 <= i < old.len(),
        new.len() == old.len(),
        forall|j: int| 0 <= j < old.len() && j != i ==> new[j] == old[j],
        new[i].status == status,
        entry_names(old)[i] == name,
        new[i].name@ == name,
    ensures
        entries_map(new) == entries_map(old).insert(name, status),
{
    lemma_entries_map(old);
    lemma_entries_map(new);
    let m = entries_map(old).insert(name, status);
    assert(entry_names(new)[i] == name);
    assert forall|k: Seq<char>| #[trigger] entries_map(new).dom().contains(k) <==> m.dom().contains(k) by {
        if entries_map(new).dom().contains(k) && k != name {
            let j = choose|j: int| 0 <= j < new.len() && entry_names(new)[j] == k;
            assert(new[j] == old[j]);
            assert(entry_names(old)[j] == k);
        }
        if m.dom().contains(k) && k != name {
            let j = choose|j: int| 0 <= j < old.len() && entry_names(old)[j] == k;
            assert(new[j] == old[j]);
            assert(entry_names(new)[j] == k);
        }
    }
    assert forall|k: Seq<char>| #[trigger] entries_map(new).dom().contains(k) implies entries_map(new)[k] == m[k] by {
        let j = choose|j: int| 0 <= j < new.len() && entry_names(new)[j] == k;
        if j != i {
            assert(new[j] == old[j]);
            assert(entry_names(old)[j] == k);
        }
    }
    assert(entries_map(new) =~= m);
}

/// Inserting an entry of a new name at `i` adds that name and nothing else.
proof fn lemma_insert_map(old: Seq<Entry>, new: Seq<Entry>, i: int, name: Seq<char>, status: Status)
    requires
        sorted_names(entry_names(old)),
        sorted_names(entry_names(new)),
        0 <= i <= old.len(),
        new.len() == old.len() + 1,
        forall|j: int| 0 <= j < i ==> new[j] == old[j],
        forall|j: int| i < j < new.len() ==> new[j] == old[j - 1],
        new[i].status == status,
        new[i].name@ == name,
    ensures
        entries_map(new) == entries_map(old).insert(name, status),
{
    lemma_entries_map(old);
    lemma_entries_map(new);
    let m = entries_map(old).insert(name, status);
    assert(entry_names(new)[i] == name);
    assert forall|k: Seq<char>| #[trigger] entries_map(new).dom().contains(k) <==> m.dom().contains(k) by {
        if entries_map(new).dom().contains(k) && k != name {
            let j = choose|j: int| 0 <= j < new.len() && entry_names(new)[j] == k;
            if j < i {
                assert(new[j] == old[j]);
                assert(entry_names(old)[j] == k);
            } else {
                assert(new[j] == old[j - 1]);
                assert(entry_names(old)[j - 1] == k);
            }
        }
        if m.dom().contains(k) && k != name {
            let j = choose|j: int| 0 <= j < old.len() && entry_names(old)[j] == k;
            if j < i {
                assert(new[j] == old[j]);
                assert(entry_names(new)[j] == k);
            } else {
                assert(new[j + 1] == old[j]);
                assert(entry_names(new)[j + 1] == k);
            }
        }
    }
    assert forall|k: Seq<char>| #[trigger] entries_map(new).dom().contains(k) implies entries_map(new)[k] == m[k] by {
        let j = choose|j: int| 0 <= j < new.len() && entry_names(new)[j] == k;
        if j < i {
            assert(new[j] == old[j]);
            assert(entry_names(old)[j] == k);
        } else if j > i {
            assert(new[j] == old[j - 1]);
            assert(entry_names(old)[j - 1] == k);
        }
    }
    assert(entries_map(new) =~= m);
}

/// The names among the first `i` entries whose status has severity `level`.
spec fn seen(s: Seq<Entry>, i: int, level: u8) -> Set<Seq<char>> {
    Set::new(
        |k: Seq<char>|
            exists|j: int|
                0 <= j < i && #[trigger] entry_names(s)[j] == k && s[j].status.severity() == level,
    )
}

/// Going one entry further adds that entry's name when its severity matches;
/// the name was not seen before.
proof fn lemma_seen_step(s: Seq<Entry>, i: int, level: u8)
    requires
        sorted_names(entry_names(s)),
        0 <= i < s.len(),
    ensures
        !seen(s, i, level).contains(entry_names(s)[i]),
        seen(s, i + 1, level) == (if s[i].status.severity() == level {
            seen(s, i, level).insert(entry_names(s)[i])
        } else {
            seen(s, i, level)
        }),
{
    let names = entry_names(s);
    if seen(s, i, level).contains(names[i]) {
        let j = choose|j: int|
            0 <= j < i && #[trigger] names[j] == names[i] && s[j].status.severity() == level;
        lemma_name_lt_irreflexive(names[i]);
    }
    if s[i].status.severity() == level {
        assert(seen(s, i + 1, level) =~= seen(s, i, level).insert(names[i]));
    } else {
        assert(seen(s, i + 1, level) =~= seen(s, i, level));
    }
}

/// Before any entry nothing is seen; after all of them, exactly the names of
/// that severity.
proof fn lemma_seen_ends(s: Seq<Entry>, level: u8)
    requires
        sorted_names(entry_names(s)),
    ensures
        seen(s, 0, level) == Set::<Seq<char>>::empty(),
        seen(s, s.len() as int, level) == names_at(entries_map(s), level),
{
    lemma_entries_map(s);
    assert(seen(s, 0, level) =~= Set::<Seq<char>>::empty());
    let m = entries_map(s);
    assert forall|k: Seq<char>| #[trigger] seen(s, s.len() as int, level).contains(k) <==> names_at(m, level).contains(k) by {
        if names_at(m, level).contains(k) {
            let j = choose|j: int| 0 <= j < s.len() && entry_names(s)[j] == k;
        }
    }
    assert(seen(s, s.len() as int, level) =~= names_at(m, level));
}

impl View for HealthRegistry {
    type V = Components;

    closed spec fn view(&self) -> Components {
        entries_map(self.entries@)
    }
}

impl Default for HealthRegistry {
    /// An empty registry.
    fn default() -> (r: Self)
        ensures
            r@ == Map::<Seq<char>, Status>::empty(),
    {
        HealthRegistry::new()
    }
}

impl HealthRegistry {
    /// Entries are sorted strictly by name, so each name occurs once.
    #[verifier::type_invariant]
    spec fn sorted(&self) -> bool {
        sorted_names(entry_names(self.entries@))
    }

    /// An empty registry.
    pub fn new() -> (r: Self)
        ensures
            r@ == Map::<Seq<char>, Status>::empty(),
    {
        let r = HealthRegistry { entries: Vec::new() };
        assert(r@ =~= Map::<Seq<char>, Status>::empty());
        r
    }

    /// Where `name` stands or would stand among the sorted entries, and
    /// whether it is there.
    fn find(&self, name: &str) -> (r: (usize, bool))
        ensures
            r.0 <= self.entries@.len(),
            forall|j: int| 0 <= j < r.0 ==> name_lt(entry_names(self.entries@)[j], name@),
            r.1 ==> r.0 < self.entries@.len() && entry_names(self.entries@)[r.0 as int] == name@,
            !r.1 ==> forall|j: int|
                r.0 <= j < self.entries@.len() ==> name_lt(name@, entry_names(self.entries@)[j]),
    {
        proof {
            use_type_invariant(self);
        }
        let ghost names = entry_names(self.entries@);
        let mut lo: usize = 0;
        let mut hi: usize = self.entries.len();
        while lo < hi
            invariant
                names == entry_names(self.entries@),
                sorted_names(names),
                lo <= hi <= self.entries@.len(),
                forall|j: int| 0 <= j < lo ==> name_lt(names[j], name@),
                forall|j: int| hi <= j < self.entries@.len() ==> !name_lt(names[j], name@),
            decreases hi - lo,
        {
            let mid = lo + (hi - lo) / 2;
            if name_less(self.entries[mid].name.as_str(), name) {
                proof {
                    assert forall|j: int| 0 <= j <= mid implies name_lt(names[j], name@) by {
                        if j < mid {
                            lemma_name_lt_transitive(names[j], names[mid as int], name@);
                        }
                    }
                }
                lo = mid + 1;
            } else {
                proof {
                    assert forall|j: int| mid <= j < self.entries@.len() implies !name_lt(
                        names[j],
                        name@,
                    ) by {
                        if j > mid && name_lt(names[j], name@) {
                            lemma_name_lt_transitive(names[mid as int], names[j], name@);
                        }
                    }
                }
                hi = mid;
            }
        }
        if lo < self.entries.len() && !name_less(name, self.entries[lo].name.as_str()) {
            proof {
                lemma_name_trichotomy(names[lo as int], name@);
            }
            (lo, true)
        } else {
            proof {
                if lo < self.entries@.len() {
                    assert forall|j: int| lo <= j < self.entries@.len() implies name_lt(
                        name@,
                        names[j],
                    ) by {
                        if j > lo {
                            lemma_name_lt_transitive(name@, names[lo as int], names[j]);
                        }
                    }
                }
            }
            (lo, false)
        }
    }

    /// Get status for a component.
    pub fn get(&self, name: &str) -> (r: Option<&Status>)
        ensures
            match r {
                Some(s) => self@.dom().contains(name@) && *s == self@[name@],
                None => !self@.dom().contains(name@),
            },
    {
        proof {
            use_type_invariant(self);
            lemma_entries_map(self.entries@);
        }
        let (i, found) = self.find(name);
        if found {
            Some(&self.entries[i].status)
        } else {
            proof {
                let names = entry_names(self.entries@);
                if self@.dom().contains(name@) {
                    let j = choose|j: int| 0 <= j < names.len() && names[j] == name@;
                    lemma_name_lt_irreflexive(name@);
                }
            }
            None
        }
    }

    /// True if a component with `name` is registered.
    pub fn contains(&self, name: &str) -> (r: bool)
        ensures
            r == self@.dom().contains(name@),
    {
        self.get(name).is_some()
    }

    /// Number of registered components.
    pub fn len(&self) -> (r: usize)
        ensures
            self@.dom().finite(),
            r == self@.dom().len(),
    {
        proof {
            use_type_invariant(self);
            lemma_entries_map(self.entries@);
        }
        self.entries.len()
    }

    /// True if no components are registered.
    pub fn is_empty(&self) -> (r: bool)
        ensures
            r == (self@.dom().len() == 0),
    {
        self.len() == 0
    }

    /// Set status for a component, replacing any status it had.
    pub fn set(&mut self, name: &str, status: Status)
        ensures
            final(self)@ == old(self)@.insert(name@, status),
    {
        proof {
            use_type_invariant(&*self);
            lemma_entries_map(self.entries@);
        }
        let (i, found) = self.find(name);
        let entry = Entry { name: name.to_owned(), status };
        let ghost old_entries = self.entries@;
        let ghost old_names = entry_names(old_entries);
        let mut entries: Vec<Entry> = Vec::new();
        std::mem::swap(&mut entries, &mut self.entries);
        if found {
            entries.set(i, entry);
            proof {
                let names = entry_names(entries@);
                assert(names =~= old_names);
                lemma_entries_map(entries@);
                lemma_set_map(old_entries, entries@, i as int, name@, status);
            }
        } else {
            entries.insert(i, entry);
            proof {
                let names = entry_names(entries@);
                assert(names =~= old_names.insert(i as int, name@));
                assert forall|a: int, b: int| 0 <= a < b < names.len() implies name_lt(
                    #[trigger] names[a],
                    #[trigger] names[b],
                ) by {
                    if b < i {
                    } else if a < i && b == i {
                    } else if a < i {
                        assert(names[b] == old_names[b - 1]);
                    } else if a == i {
                        assert(names[b] == old_names[b - 1]);
                    } else {
                        assert(names[a] == old_names[a - 1]);
                        assert(names[b] == old_names[b - 1]);
                    }
                }
                lemma_entries_map(entries@);
                lemma_insert_map(old_entries, entries@, i as int, name@, status);
            }
        }
        self.entries = entries;
    }

    /// Remove a component; nothing happens if it is not registered.
    pub fn remove(&mut self, name: &str)
        ensures
            final(self)@ == old(self)@.remove(name@),
    {
        proof {
            use_type_invariant(&*self);
            lemma_entries_map(self.entries@);
        }
        let (i, found) = self.find(name);
        if found {
            let ghost old_entries = self.entries@;
            let mut entries: Vec<Entry> = Vec::new();
            std::mem::swap(&mut entries, &mut self.entries);
            entries.remove(i);
            proof {
                let old_names = entry_names(old_entries);
                let names = entry_names(entries@);
                assert(names =~= old_names.remove(i as int));
                assert forall|a: int, b: int| 0 <= a < b < names.len() implies name_lt(
                    #[trigger] names[a],
                    #[trigger] names[b],
                ) by {
                    if b < i {
                    } else if a < i {
                        assert(names[b] == old_names[b + 1]);
                    } else {
                        assert(names[a] == old_names[a + 1]);
                        assert(names[b] == old_names[b + 1]);
                    }
                }
                lemma_insert_map(entries@, old_entries, i as int, name@, old_entries[i as int].status);
                lemma_entries_map(entries@);
                assert(!entries_map(entries@).dom().contains(name@)) by {
                    if entries_map(entries@).dom().contains(name@) {
                        let j = choose|j: int| 0 <= j < names.len() && names[j] == name@;
                        if j < i {
                            assert(old_names[j] == name@);
                        } else {
                            assert(old_names[j + 1] == name@);
                        }
                    }
                }
                assert(entries_map(entries@) =~= entries_map(old_entries).remove(name@));
            }
            self.entries = entries;
        } else {
            proof {
                let names = entry_names(self.entries@);
                if self@.dom().contains(name@) {
                    let j = choose|j: int| 0 <= j < names.len() && names[j] == name@;
                    lemma_name_lt_irreflexive(name@);
                }
                assert(self@ =~= self@.remove(name@));
            }
        }
    }

    /// Reset every registered component to `Unknown`.
    pub fn reset_all(&mut self)
        ensures
            final(self)@ == old(self)@.map_values(|s: Status| Status::Unknown),
    {
        proof {
            use_type_invariant(&*self);
        }
        let ghost old_entries = self.entries@;
        let mut entries: Vec<Entry> = Vec::new();
        std::mem::swap(&mut entries, &mut self.entries);
        let n = entries.len();
        for i in 0..n
            invariant
                n == entries@.len(),
                n == old_entries.len(),
                forall|j: int| 0 <= j < n ==> #[trigger] entries@[j].name == old_entries[j].name,
                forall|j: int| 0 <= j < i ==> #[trigger] entries@[j].status == Status::Unknown,
        {
            entries[i].status = Status::Unknown;
        }
        proof {
            assert(entry_names(entries@) =~= entry_names(old_entries));
            lemma_entries_map(entries@);
            lemma_entries_map(old_entries);
            let target = entries_map(old_entries).map_values(|s: Status| Status::Unknown);
            assert forall|k: Seq<char>| #[trigger] entries_map(entries@).dom().contains(k) <==> target.dom().contains(k) by {
                if entries_map(entries@).dom().contains(k) {
                    let j = choose|j: int| 0 <= j < n && entry_names(entries@)[j] == k;
                    assert(entry_names(old_entries)[j] == k);
                }
                if target.dom().contains(k) {
                    let j = choose|j: int| 0 <= j < n && entry_names(old_entries)[j] == k;
                    assert(entry_names(entries@)[j] == k);
                }
            }
            assert forall|k: Seq<char>| #[trigger] entries_map(entries@).dom().contains(k) implies entries_map(entries@)[k] == target[k] by {
                let j = choose|j: int| 0 <= j < n && entry_names(entries@)[j] == k;
                assert(entry_names(old_entries)[j] == k);
            }
            assert(entries_map(entries@) =~= target);
        }
        self.entries = entries;
    }

    /// True if all registered components are `Okay` (so also when none is).
    pub fn all_ok(&self) -> (r: bool)
        ensures
            r == all_ok_in(self@),
    {
        proof {
            use_type_invariant(self);
            lemma_entries_map(self.entries@);
        }
        let n = self.entries.len();
        for i in 0..n
            invariant
                n == self.entries@.len(),
                sorted_names(entry_names(self.entries@)),
                forall|j: int| 0 <= j < i ==> #[trigger] self.entries@[j].status.is_ok(),
        {
            if !self.entries[i].status.is_ok() {
                proof {
                    lemma_entries_map(self.entries@);
                    assert(self@.dom().contains(entry_names(self.entries@)[i as int]));
                }
                return false;
            }
        }
        proof {
            assert forall|k: Seq<char>| #[trigger] self@.dom().contains(k) implies self@[k].is_ok() by {
                let j = choose|j: int| 0 <= j < n && entry_names(self.entries@)[j] == k;
                assert(self.entries@[j].status.is_ok());
            }
        }
        true
    }

    /// True if no component is `Down` or `Unknown`.
    pub fn is_healthy(&self) -> (r: bool)
        ensures
            r == healthy_in(self@),
    {
        proof {
            use_type_invariant(self);
            lemma_entries_map(self.entries@);
        }
        let n = self.entries.len();
        for i in 0..n
            invariant
                n == self.entries@.len(),
                sorted_names(entry_names(self.entries@)),
                forall|j: int|
                    0 <= j < i ==> !(#[trigger] self.entries@[j].status).is_down()
                        && !self.entries@[j].status.is_unknown(),
        {
            let s = &self.entries[i].status;
            if s.is_down() || s.is_unknown() {
                proof {
                    lemma_entries_map(self.entries@);
                    assert(self@.dom().contains(entry_names(self.entries@)[i as int]));
                }
                return false;
            }
        }
        proof {
            assert forall|k: Seq<char>| #[trigger] self@.dom().contains(k) implies !self@[k].is_down()
                && !self@[k].is_unknown() by {
                let j = choose|j: int| 0 <= j < n && entry_names(self.entries@)[j] == k;
                assert(!self.entries@[j].status.is_down());
            }
        }
        true
    }

    /// The names of the components whose status has severity `level`, sorted.
    fn names_with_severity(&self, level: u8) -> (r: Vec<&str>)
        ensures
            lists(strs_view(r@), names_at(self@, level)),
    {
        proof {
            use_type_invariant(self);
            lemma_seen_ends(self.entries@, level);
        }
        let ghost names = entry_names(self.entries@);
        let n = self.entries.len();
        let mut r: Vec<&str> = Vec::new();
        let mut i: usize = 0;
        while i < n
            invariant
                n == self.entries@.len(),
                i <= n,
                names == entry_names(self.entries@),
                sorted_names(names),
                sorted_names(strs_view(r@)),
                forall|k: Seq<char>|
                    #![trigger strs_view(r@).contains(k)]
                    #![trigger seen(self.entries@, i as int, level).contains(k)]
                    strs_view(r@).contains(k) <==> seen(self.entries@, i as int, level).contains(k),
            decreases n - i,
        {
            proof {
                lemma_seen_step(self.entries@, i as int, level);
            }
            let ghost before = strs_view(r@);
            if self.entries[i].status.severity() == level {
                r.push(self.entries[i].name.as_str());
                proof {
                    let after = strs_view(r@);
                    assert(after =~= before.push(names[i as int]));
                    assert forall|a: int, b: int| 0 <= a < b < after.len() implies name_lt(
                        #[trigger] after[a],
                        #[trigger] after[b],
                    ) by {
                        if b == before.len() {
                            assert(after[a] == before[a]);
                            assert(before.contains(after[a]));
                            assert(seen(self.entries@, i as int, level).contains(after[a]));
                            let j = choose|j: int|
                                0 <= j < i && #[trigger] names[j] == after[a]
                                    && self.entries@[j].status.severity() == level;
                            assert(name_lt(names[j], names[i as int]));
                        } else {
                            assert(after[a] == before[a]);
                            assert(after[b] == before[b]);
                        }
                    }
                    assert forall|k: Seq<char>| after.contains(k) <==> seen(self.entries@, i + 1, level).contains(k) by {
                        if after.contains(k) && k != names[i as int] {
                            let a = choose|a: int| 0 <= a < after.len() && after[a] == k;
                            assert(before[a] == k);
                            assert(before.contains(k));
                        }
                        if seen(self.entries@, i as int, level).contains(k) {
                            assert(before.contains(k));
                            let a = choose|a: int| 0 <= a < before.len() && before[a] == k;
                            assert(after[a] == k);
                        }
                        if k == names[i as int] {
                            assert(after[before.len() as int] == k);
                        }
                    }
                }
            } else {
                proof {
                    assert forall|k: Seq<char>| before.contains(k) <==> seen(self.entries@, i + 1, level).contains(k) by {
                        if before.contains(k) {
                            assert(seen(self.entries@, i as int, level).contains(k));
                        }
                        if seen(self.entries@, i + 1, level).contains(k) {
                            assert(seen(self.entries@, i as int, level).contains(k));
                        }
                    }
                }
            }
            i = i + 1;
        }
        r
    }

    /// Names of all `Down` components, sorted.
    pub fn down_components(&self) -> (r: Vec<&str>)
        ensures
            lists(strs_view(r@), down_in(self@)),
    {
        self.names_with_severity(3)
    }

    /// Names of all `Degraded` components, sorted.
    pub fn degraded_components(&self) -> (r: Vec<&str>)
        ensures
            lists(strs_view(r@), degraded_in(self@)),
    {
        self.names_with_severity(2)
    }

    /// Names of all `Unknown` components, sorted.
    pub fn unknown_components(&self) -> (r: Vec<&str>)
        ensures
            lists(strs_view(r@), unknown_in(self@)),
    {
        self.names_with_severity(1)
    }

    /// All component names, sorted.
    pub fn components(&self) -> (r: Vec<&str>)
        ensures
            lists(strs_view(r@), self@.dom()),
    {
        proof {
            use_type_invariant(self);
            lemma_entries_map(self.entries@);
        }
        let ghost names = entry_names(self.entries@);
        let n = self.entries.len();
        let mut r: Vec<&str> = Vec::new();
        for i in 0..n
            invariant
                n == self.entries@.len(),
                names == entry_names(self.entries@),
                strs_view(r@) =~= names.take(i as int),
        {
            let ghost before = strs_view(r@);
            r.push(self.entries[i].name.as_str());
            proof {
                assert(strs_view(r@) =~= before.push(names[i as int]));
                assert(strs_view(r@) =~= names.take(i + 1));
            }
        }
        proof {
            assert(strs_view(r@) =~= names);
            assert forall|k: Seq<char>| names.contains(k) <==> self@.dom().contains(k) by {
                if names.contains(k) {
                    let j = choose|j: int| 0 <= j < names.len() && names[j] == k;
                }
            }
        }
        r
    }

    /// Every `(name, status)` pair, one per component, sorted by name.
    pub fn iter(&self) -> (r: Vec<(&str, &Status)>)
        ensures
            lists(r@.map_values(|p: (&str, &Status)| p.0@), self@.dom()),
            forall|i: int| 0 <= i < r@.len() ==> *(#[trigger] r@[i]).1 == self@[r@[i].0@],
    {
        proof {
            use_type_invariant(self);
            lemma_entries_map(self.entries@);
        }
        let ghost names = entry_names(self.entries@);
        let n = self.entries.len();
        let mut r: Vec<(&str, &Status)> = Vec::new();
        for i in 0..n
            invariant
                n == self.entries@.len(),
                names == entry_names(self.entries@),
                r@.len() == i,
                forall|j: int|
                    0 <= j < i ==> (#[trigger] r@[j]).0@ == names[j] && *r@[j].1
                        == self.entries@[j].status,
        {
            let e = &self.entries[i];
            r.push((e.name.as_str(), &e.status));
        }
        proof {
            let v = r@.map_values(|p: (&str, &Status)| p.0@);
            assert(v =~= names);
            assert forall|k: Seq<char>| names.contains(k) <==> self@.dom().contains(k) by {
                if names.contains(k) {
                    let j = choose|j: int| 0 <= j < names.len() && names[j] == k;
                }
            }
            assert forall|i: int| 0 <= i < r@.len() implies *(#[trigger] r@[i]).1 == self@[r@[i].0@] by {
                assert(names[i] == r@[i].0@);
            }
        }
        r
    }

    /// The single worst status across all components, by severity; `Okay`
    /// when none is registered. Among components of equal, worst severity
    /// the one whose name comes first gives the status.
    pub fn overall(&self) -> (r: Status)
        ensures
            r == worst_in(self@),
    {
        proof {
            use_type_invariant(self);
            lemma_entries_map(self.entries@);
        }
        let ghost names = entry_names(self.entries@);
        let n = self.entries.len();
        if n == 0 {
            proof {
                assert(self@.dom() =~= Set::<Seq<char>>::empty());
            }
            return Status::Okay;
        }
        let mut best: usize = 0;
        for i in 1..n
            invariant
                n == self.entries@.len(),
                best < i,
                forall|j: int|
                    0 <= j < i ==> (#[trigger] self.entries@[j]).status.severity()
                        <= self.entries@[best as int].status.severity(),
                forall|j: int|
                    0 <= j < best ==> (#[trigger] self.entries@[j]).status.severity()
                        < self.entries@[best as int].status.severity(),
        {
            if self.entries[i].status.severity() > self.entries[best].status.severity() {
                best = i;
            }
        }
        proof {
            let m = self@;
            let k = names[best as int];
            assert(m.dom().contains(k));
            assert forall|k2: Seq<char>| #[trigger] m.dom().contains(k2) implies m[k2].severity()
                <= m[k].severity() && (m[k2].severity() == m[k].severity() ==> !name_lt(k2, k)) by {
                let j = choose|j: int| 0 <= j < n && names[j] == k2;
                assert(self.entries@[j].status.severity() <= self.entries@[best as int].status.severity());
                if m[k2].severity() == m[k].severity() && j != best {
                    assert(j > best);
                    assert(name_lt(names[best as int], names[j]));
                    lemma_name_trichotomy(k, k2);
                }
            }
            assert(is_worst(m, k));
            assert(!m.dom().is_empty());
            let w = choose|w: Seq<char>| is_worst(m, w);
            lemma_worst_unique(m, k, w);
        }
        self.entries[best].status.clone()
    }

    /// Count components grouped by status variant. See [`Summary`].
    pub fn summary(&self) -> (r: Summary)
        ensures
            r.ok == ok_in(self@).len(),
            r.unknown == unknown_in(self@).len(),
            r.degraded == degraded_in(self@).len(),
            r.down == down_in(self@).len(),
            r.sum() == self@.dom().len(),
            r.sum() <= usize::MAX,
    {
        proof {
            use_type_invariant(self);
            lemma_entries_map(self.entries@);
            lemma_seen_ends(self.entries@, 0);
            lemma_seen_ends(self.entries@, 1);
            lemma_seen_ends(self.entries@, 2);
            lemma_seen_ends(self.entries@, 3);
        }
        let ghost s = self.entries@;
        let n = self.entries.len();
        let mut r = Summary::default();
        for i in 0..n
            invariant
                n == s.len(),
                s == self.entries@,
                sorted_names(entry_names(s)),
                r.sum() == i,
                seen(s, i as int, 0).finite(),
                seen(s, i as int, 1).finite(),
                seen(s, i as int, 2).finite(),
                seen(s, i as int, 3).finite(),
                r.ok == seen(s, i as int, 0).len(),
                r.unknown == seen(s, i as int, 1).len(),
                r.degraded == seen(s, i as int, 2).len(),
                r.down == seen(s, i as int, 3).len(),
        {
            proof {
                lemma_seen_step(s, i as int, 0);
                lemma_seen_step(s, i as int, 1);
                lemma_seen_step(s, i as int, 2);
                lemma_seen_step(s, i as int, 3);
            }
            match &self.entries[i].status {
                Status::Okay => r.ok = r.ok + 1,
                Status::Degraded(_) => r.degraded = r.degraded + 1,
                Status::Down(_) => r.down = r.down + 1,
                Status::Unknown => r.unknown = r.unknown + 1,
            }
        }
        r
    }
}

} // verus!
