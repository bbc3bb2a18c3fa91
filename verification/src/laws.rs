//! What holds of the registry as a whole, stated over its model.
use vstd::prelude::*;
use crate::model::{
    all_ok_in, degraded_in, down_in, healthy_in, is_worst, names_at, ok_in,
    unknown_in, worst_in, Components,
};
use crate::order::{lemma_name_lt_transitive, name_lt};
use crate::status::Status;
use crate::summary::Summary;
use crate::text::{decimal, digit_char};

verus! {

/// After setting `name` to `status`, reading `name` gives `status`, and every
/// other name reads as it did before.
pub proof fn law_get_after_set(m: Components, name: Seq<char>, status: Status, other: Seq<char>)
    ensures
        m.insert(name, status).dom().contains(name),
        m.insert(name, status)[name] == status,
        other != name ==> m.insert(name, status).dom().contains(other) == m.dom().contains(other),
        other != name && m.dom().contains(other) ==> m.insert(name, status)[other] == m[other],
{
}

/// After removing `name`, it is no longer registered, and every other name
/// reads as it did before.
pub proof fn law_get_after_remove(m: Components, name: Seq<char>, other: Seq<char>)
    ensures
        !m.remove(name).dom().contains(name),
        other != name ==> m.remove(name).dom().contains(other) == m.dom().contains(other),
        other != name && m.dom().contains(other) ==> m.remove(name)[other] == m[other],
{
}

/// Setting a registered name overwrites it and keeps the count; setting a
/// new one adds one component.
pub proof fn law_set_len(m: Components, name: Seq<char>, status: Status)
    requires
        m.dom().finite(),
    ensures
        m.insert(name, status).dom().len() == if m.dom().contains(name) {
            m.dom().len()
        } else {
            m.dom().len() + 1
        },
{
    if m.dom().contains(name) {
        assert(m.insert(name, status).dom() =~= m.dom());
    }
}

/// A registry whose components are all `Okay` is healthy.
pub proof fn law_all_ok_is_healthy(m: Components)
    ensures
        all_ok_in(m) ==> healthy_in(m),
{
}

/// An empty registry is vacuously all `Okay` and healthy, its overall status
/// is `Okay`, and it counts no component of any kind.
pub proof fn law_empty_registry()
    ensures
        all_ok_in(Map::<Seq<char>, Status>::empty()),
        healthy_in(Map::<Seq<char>, Status>::empty()),
        worst_in(Map::<Seq<char>, Status>::empty()) == Status::Okay,
        ok_in(Map::<Seq<char>, Status>::empty()).len() == 0,
        unknown_in(Map::<Seq<char>, Status>::empty()).len() == 0,
        degraded_in(Map::<Seq<char>, Status>::empty()).len() == 0,
        down_in(Map::<Seq<char>, Status>::empty()).len() == 0,
{
    let m = Map::<Seq<char>, Status>::empty();
    assert(m.dom() =~= Set::<Seq<char>>::empty());
    assert(ok_in(m) =~= Set::<Seq<char>>::empty());
    assert(unknown_in(m) =~= Set::<Seq<char>>::empty());
    assert(degraded_in(m) =~= Set::<Seq<char>>::empty());
    assert(down_in(m) =~= Set::<Seq<char>>::empty());
}

proof fn lemma_names_at_finite(m: Components, level: u8)
    requires
        m.dom().finite(),
    ensures
        names_at(m, level).finite(),
        names_at(m, level).subset_of(m.dom()),
{
    assert(names_at(m, level).subset_of(m.dom()));
    vstd::set_lib::lemma_set_subset_finite(m.dom(), names_at(m, level));
}

/// Every component is counted under exactly one kind, so the counts of a
/// summary add up to the number of components.
pub proof fn law_summary_partitions(m: Components)
    requires
        m.dom().finite(),
    ensures
        ok_in(m).len() + unknown_in(m).len() + degraded_in(m).len() + down_in(m).len()
            == m.dom().len(),
{
    lemma_names_at_finite(m, 0);
    lemma_names_at_finite(m, 1);
    lemma_names_at_finite(m, 2);
    lemma_names_at_finite(m, 3);
    let a = ok_in(m);
    let b = unknown_in(m);
    let c = degraded_in(m);
    let d = down_in(m);
    vstd::set_lib::lemma_set_disjoint_lens(a, b);
    vstd::set_lib::lemma_set_disjoint_lens(a + b, c);
    vstd::set_lib::lemma_set_disjoint_lens(a + b + c, d);
    assert(a + b + c + d =~= m.dom());
}

/// All components are `Okay` exactly when the `Okay` count is the number of
/// components; the registry is healthy exactly when nothing counts as `Down`
/// or `Unknown`.
pub proof fn law_checks_match_summary(m: Components)
    requires
        m.dom().finite(),
    ensures
        all_ok_in(m) <==> ok_in(m).len() == m.dom().len(),
        healthy_in(m) <==> down_in(m).len() == 0 && unknown_in(m).len() == 0,
{
    lemma_names_at_finite(m, 0);
    lemma_names_at_finite(m, 1);
    lemma_names_at_finite(m, 3);
    if all_ok_in(m) {
        assert(ok_in(m) =~= m.dom());
    }
    if ok_in(m).len() == m.dom().len() {
        vstd::set_lib::lemma_subset_equality(ok_in(m), m.dom());
    }
    if healthy_in(m) {
        assert(down_in(m) =~= Set::<Seq<char>>::empty());
        assert(unknown_in(m) =~= Set::<Seq<char>>::empty());
    }
    if down_in(m).len() == 0 && unknown_in(m).len() == 0 {
        assert forall|k: Seq<char>| #[trigger] m.dom().contains(k) implies !m[k].is_down()
            && !m[k].is_unknown() by {
            if m[k].is_down() {
                assert(down_in(m).contains(k));
            }
            if m[k].is_unknown() {
                assert(unknown_in(m).contains(k));
            }
        }
    }
}

/// Every finite registry with a component has a worst one.
pub proof fn lemma_worst_exists(m: Components)
    requires
        m.dom().finite(),
        !m.dom().is_empty(),
    ensures
        exists|k: Seq<char>| is_worst(m, k),
    decreases m.dom().len(),
{
    let k = m.dom().choose();
    let m2 = m.remove(k);
    if m2.dom().is_empty() {
        assert forall|k2: Seq<char>| #[trigger] m.dom().contains(k2) implies k2 == k by {
            if k2 != k {
                assert(m2.dom().contains(k2));
            }
        }
        assert(is_worst(m, k));
    } else {
        lemma_worst_exists(m2);
        let w = choose|w: Seq<char>| is_worst(m2, w);
        let sk = m[k].severity();
        let sw = m[w].severity();
        if sk > sw || (sk == sw && name_lt(k, w)) {
            assert forall|k2: Seq<char>| #[trigger] m.dom().contains(k2) implies m[k2].severity()
                <= sk && (m[k2].severity() == sk ==> !name_lt(k2, k)) by {
                if k2 != k {
                    assert(m2.dom().contains(k2));
                    if m[k2].severity() == sk && name_lt(k2, k) {
                        lemma_name_lt_transitive(k2, k, w);
                    }
                }
            }
            assert(is_worst(m, k));
        } else {
            assert forall|k2: Seq<char>| #[trigger] m.dom().contains(k2) implies m[k2].severity()
                <= sw && (m[k2].severity() == sw ==> !name_lt(k2, w)) by {
                if k2 != k {
                    assert(m2.dom().contains(k2));
                }
            }
            assert(is_worst(m, w));
        }
    }
}

/// The overall status is as bad as any component's, and it is the status of
/// one of them (`Okay` when there is none).
pub proof fn law_worst_bounds(m: Components, k: Seq<char>)
    requires
        m.dom().finite(),
    ensures
        m.dom().contains(k) ==> m[k].severity() <= worst_in(m).severity(),
        !m.dom().is_empty() ==> exists|w: Seq<char>|
            m.dom().contains(w) && m[w] == worst_in(m),
{
    if !m.dom().is_empty() {
        lemma_worst_exists(m);
        let w = choose|w: Seq<char>| is_worst(m, w);
        assert(m.dom().contains(w) && m[w] == worst_in(m));
    }
}

/// The overall status is `Okay` exactly when every component is `Okay`.
pub proof fn law_worst_ok_iff_all_ok(m: Components)
    requires
        m.dom().finite(),
    ensures
        worst_in(m).is_ok() <==> all_ok_in(m),
{
    if !m.dom().is_empty() {
        lemma_worst_exists(m);
        let w = choose|w: Seq<char>| is_worst(m, w);
        assert(m.dom().contains(w));
    }
}

/// After every component is reset to `Unknown`: the same names stay, each
/// is `Unknown`, the registry is neither all `Okay` nor healthy unless it is
/// empty, and its overall status is `Unknown` unless it is empty.
pub proof fn law_reset_all(m: Components)
    requires
        m.dom().finite(),
    ensures
        m.map_values(|s: Status| Status::Unknown).dom() == m.dom(),
        unknown_in(m.map_values(|s: Status| Status::Unknown)) == m.dom(),
        all_ok_in(m.map_values(|s: Status| Status::Unknown)) <==> m.dom().is_empty(),
        healthy_in(m.map_values(|s: Status| Status::Unknown)) <==> m.dom().is_empty(),
        !m.dom().is_empty() ==> worst_in(m.map_values(|s: Status| Status::Unknown))
            == Status::Unknown,
{
    let r = m.map_values(|s: Status| Status::Unknown);
    assert(r.dom() =~= m.dom());
    assert(unknown_in(r) =~= m.dom());
    if !m.dom().is_empty() {
        let k = m.dom().choose();
        assert(r.dom().contains(k));
        lemma_worst_exists(r);
        let w = choose|w: Seq<char>| is_worst(r, w);
        assert(r.dom().contains(w));
    }
}

/// A status renders as `ok`, `unknown`, or its prefix (`degraded: ` or
/// `down: `) followed by the whole of its reason, character for character.
pub proof fn law_status_text(msg: String)
    ensures
        Status::Okay.text() == seq!['o', 'k'],
        Status::Unknown.text() == seq!['u', 'n', 'k', 'n', 'o', 'w', 'n'],
        Status::Degraded(msg).text() == seq!['d', 'e', 'g', 'r', 'a', 'd', 'e', 'd', ':', ' ']
            + msg@,
        Status::Down(msg).text() == seq!['d', 'o', 'w', 'n', ':', ' '] + msg@,
        Status::Degraded(msg).text().len() == 10 + msg@.len(),
        Status::Down(msg).text().len() == 6 + msg@.len(),
        Status::Degraded(msg).text().subrange(10, 10 + msg@.len() as int) == msg@,
        Status::Down(msg).text().subrange(6, 6 + msg@.len() as int) == msg@,
{
    reveal_strlit("ok");
    reveal_strlit("unknown");
    reveal_strlit("degraded: ");
    reveal_strlit("down: ");
    assert(Status::Okay.text() =~= seq!['o', 'k']);
    assert(Status::Unknown.text() =~= seq!['u', 'n', 'k', 'n', 'o', 'w', 'n']);
    assert(Status::Degraded(msg).text() =~= seq!['d', 'e', 'g', 'r', 'a', 'd', 'e', 'd', ':', ' ']
        + msg@);
    assert(Status::Down(msg).text() =~= seq!['d', 'o', 'w', 'n', ':', ' '] + msg@);
    assert(Status::Degraded(msg).text().subrange(10, 10 + msg@.len() as int) =~= msg@);
    assert(Status::Down(msg).text().subrange(6, 6 + msg@.len() as int) =~= msg@);
}

/// The number that a string of decimal digits denotes, most significant
/// digit first, each digit counted by its character code above `'0'`.
pub open spec fn numeral_value(s: Seq<char>) -> int
    decreases s.len(),
{
    if s.len() == 0 {
        0
    } else {
        numeral_value(s.drop_last()) * 10 + (s.last() as int - '0' as int)
    }
}

/// Each digit is the character `d` places after `'0'`.
pub proof fn law_digit_char(d: nat)
    requires
        d < 10,
    ensures
        digit_char(d) as int == '0' as int + d,
{
}

/// The rendering of a count is its ordinary decimal numeral: only the
/// characters `'0'` to `'9'`, no leading zero unless the count is 0, and
/// read back in base 10 it gives the count.
pub proof fn law_decimal(n: nat)
    ensures
        decimal(n).len() >= 1,
        forall|i: int|
            0 <= i < decimal(n).len() ==> '0' <= #[trigger] decimal(n)[i] <= '9',
        decimal(n)[0] == '0' ==> n == 0,
        numeral_value(decimal(n)) == n,
    decreases n,
{
    if n < 10 {
        law_digit_char(n);
        assert(decimal(n).drop_last() =~= Seq::<char>::empty());
        assert(numeral_value(decimal(n)) == numeral_value(Seq::<char>::empty()) * 10 + (digit_char(n) as int - '0' as int));
    } else {
        law_decimal(n / 10);
        law_digit_char(n % 10);
        let s = decimal(n);
        assert(s.drop_last() =~= decimal(n / 10));
        assert(s.last() == digit_char(n % 10));
        assert(numeral_value(s) == numeral_value(decimal(n / 10)) * 10 + (n % 10));
        assert((n / 10) * 10 + n % 10 == n);
        assert(s[0] == decimal(n / 10)[0]);
        assert forall|i: int| 0 <= i < s.len() implies '0' <= #[trigger] s[i] <= '9' by {
            if i < s.len() - 1 {
                assert(s[i] == decimal(n / 10)[i]);
            }
        }
    }
}

/// A summary renders as the four counts in decimal, in the order ok,
/// degraded, down, unknown, each followed by its label.
pub proof fn law_summary_text(s: Summary)
    ensures
        s.text() == decimal(s.ok as nat) + seq![' ', 'o', 'k', ',', ' '] + decimal(
            s.degraded as nat,
        ) + seq![' ', 'd', 'e', 'g', 'r', 'a', 'd', 'e', 'd', ',', ' '] + decimal(s.down as nat)
            + seq![' ', 'd', 'o', 'w', 'n', ',', ' '] + decimal(s.unknown as nat) + seq![
            ' ',
            'u',
            'n',
            'k',
            'n',
            'o',
            'w',
            'n',
        ],
{
    reveal_strlit(" ok, ");
    reveal_strlit(" degraded, ");
    reveal_strlit(" down, ");
    reveal_strlit(" unknown");
    assert(" ok, "@ =~= seq![' ', 'o', 'k', ',', ' ']);
    assert(" degraded, "@ =~= seq![' ', 'd', 'e', 'g', 'r', 'a', 'd', 'e', 'd', ',', ' ']);
    assert(" down, "@ =~= seq![' ', 'd', 'o', 'w', 'n', ',', ' ']);
    assert(" unknown"@ =~= seq![' ', 'u', 'n', 'k', 'n', 'o', 'w', 'n']);
}

} // verus!
