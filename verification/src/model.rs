//! The mathematical model of a registry: a finite map from component names
//! to statuses, and what the registry's questions mean on it.
use vstd::prelude::*;
use crate::order::{lemma_name_trichotomy, name_lt, sorted_names};
use crate::status::Status;

verus! {

/// The abstract registry: each registered name and its status.
pub type Components = Map<Seq<char>, Status>;

/// Every registered component is `Okay` (vacuously so when there is none).
pub open spec fn all_ok_in(m: Components) -> bool {
    forall|k: Seq<char>| #[trigger] m.dom().contains(k) ==> m[k].is_ok()
}

/// No registered component is `Down` or `Unknown`; `Degraded` is tolerated.
pub open spec fn healthy_in(m: Components) -> bool {
    forall|k: Seq<char>|
        #[trigger] m.dom().contains(k) ==> !m[k].is_down() && !m[k].is_unknown()
}

/// The names whose status has the given severity.
pub open spec fn names_at(m: Components, level: u8) -> Set<Seq<char>> {
    Set::new(|k: Seq<char>| m.dom().contains(k) && m[k].severity() == level)
}

/// The names of the `Okay` components.
pub open spec fn ok_in(m: Components) -> Set<Seq<char>> {
    names_at(m, 0)
}

/// The names of the `Unknown` components.
pub open spec fn unknown_in(m: Components) -> Set<Seq<char>> {
    names_at(m, 1)
}

/// The names of the `Degraded` components.
pub open spec fn degraded_in(m: Components) -> Set<Seq<char>> {
    names_at(m, 2)
}

/// The names of the `Down` components.
pub open spec fn down_in(m: Components) -> Set<Seq<char>> {
    names_at(m, 3)
}

/// `names` lists the members of `x`, each once, in the order of names.
pub open spec fn lists(names: Seq<Seq<char>>, x: Set<Seq<char>>) -> bool {
    &&& sorted_names(names)
    &&& forall|k: Seq<char>| names.contains(k) <==> x.contains(k)
}

/// The names that a list of string slices holds.
pub open spec fn strs_view(v: Seq<&str>) -> Seq<Seq<char>> {
    v.map_values(|s: &str| s@)
}

/// `k` names a component of the worst severity, and no component of that
/// severity has a smaller name.
pub open spec fn is_worst(m: Components, k: Seq<char>) -> bool {
    &&& m.dom().contains(k)
    &&& forall|k2: Seq<char>| #[trigger]
        m.dom().contains(k2) ==> m[k2].severity() <= m[k].severity() && (m[k2].severity()
            == m[k].severity() ==> !name_lt(k2, k))
}

/// The single worst status: `Okay` when nothing is registered, else the
/// status of the first name, in the order of names, among those of the
/// greatest severity.
pub open spec fn worst_in(m: Components) -> Status {
    if m.dom().is_empty() {
        Status::Okay
    } else {
        m[choose|k: Seq<char>| is_worst(m, k)]
    }
}

/// At most one name is the worst.
pub proof fn lemma_worst_unique(m: Components, k1: Seq<char>, k2: Seq<char>)
    requires
        is_worst(m, k1),
        is_worst(m, k2),
    ensures
        k1 == k2,
{
    assert(m.dom().contains(k1) && m.dom().contains(k2));
    lemma_name_trichotomy(k1, k2);
}

} // verus!
