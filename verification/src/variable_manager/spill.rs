//! Spill emission: the registers of the spilled variables are stored to
//! their new stack slots, two at a time where the slots are adjacent.
use vstd::prelude::*;
use crate::text::{push_store_line, push_store_pair_line, store_line, store_pair_line};
use crate::variable::{Variable, VariableView};
use crate::variable_manager::assignment::Outcome;
use crate::variable_manager::demand::{demands_view, variables_view, Demand, DemandView};

verus! {

/// A register that has to be stored to the stack slot at `offset`.
#[derive(Debug)]
pub struct Store {
    pub register: String,
    pub offset: usize,
}

/// The mathematical value of a [`Store`].
pub struct StoreView {
    pub register: Seq<char>,
    pub offset: usize,
}

impl View for Store {
    type V = StoreView;

    open spec fn view(&self) -> StoreView {
        StoreView { register: self.register@, offset: self.offset }
    }
}

/// The mathematical values of a list of stores.
pub open spec fn stores_view(stores: Seq<Store>) -> Seq<StoreView> {
    stores.map_values(|s: Store| s@)
}

/// The stores that the first `n` demands of the agenda ask for: one for
/// each spilled variable that had its value in a register, in the order of
/// the agenda.
pub open spec fn stores(live: Seq<VariableView>, agenda: Seq<DemandView>, outcomes: Seq<Outcome>, n: int) -> Seq<
    StoreView,
>
    decreases n,
{
    if n <= 0 {
        Seq::empty()
    } else {
        let rest = stores(live, agenda, outcomes, n - 1);
        match outcomes[n - 1] {
            Outcome::Spilled(offset) => match live[agenda[n - 1].variable].value_register() {
                Some(register) => rest.push(StoreView { register, offset }),
                None => rest,
            },
            _ => rest,
        }
    }
}

/// The text that stores two registers: one paired store where their slots
/// are adjacent, the register of the lower slot first; two single stores
/// otherwise.
pub open spec fn pair_text(first: StoreView, second: StoreView) -> Seq<char> {
    if first.offset - second.offset == 8 {
        store_pair_line(second.register, first.register, second.offset as nat)
    } else if second.offset - first.offset == 8 {
        store_pair_line(first.register, second.register, first.offset as nat)
    } else {
        store_line(first.register, first.offset as nat) + store_line(second.register, second.offset as nat)
    }
}

/// The text that performs `stores`: they are taken two by two, and one left
/// at the end is stored alone.
pub open spec fn stores_text(stores: Seq<StoreView>) -> Seq<char>
    decreases stores.len(),
{
    if stores.len() == 0 {
        Seq::empty()
    } else if stores.len() == 1 {
        store_line(stores[0].register, stores[0].offset as nat)
    } else {
        pair_text(stores[0], stores[1]) + stores_text(stores.skip(2))
    }
}

/// Two stores to slots that are exactly 8 bytes apart give exactly one
/// paired store, with the register of the lower slot first and at the lower
/// offset; two stores to other slots give two single stores.
pub proof fn lemma_pairing(first: StoreView, second: StoreView)
    ensures
        second.offset - first.offset == 8 ==> stores_text(seq![first, second]) == store_pair_line(
            first.register,
            second.register,
            first.offset as nat,
        ),
        first.offset - second.offset == 8 ==> stores_text(seq![first, second]) == store_pair_line(
            second.register,
            first.register,
            second.offset as nat,
        ),
        second.offset - first.offset != 8 && first.offset - second.offset != 8 ==> stores_text(
            seq![first, second],
        ) == store_line(first.register, first.offset as nat) + store_line(
            second.register,
            second.offset as nat,
        ),
{
    let both = seq![first, second];
    assert(both.skip(2) =~= Seq::empty());
    assert(stores_text(both.skip(2)) =~= Seq::empty());
    assert(stores_text(both) =~= pair_text(first, second));
}

/// The stores that the spilled variables ask for.
pub fn collect_stores(live: &Vec<Variable>, agenda: &Vec<Demand>, outcomes: &Vec<Outcome>) -> (res: Vec<Store>)
    requires
        outcomes.len() == agenda.len(),
        forall|k: int| 0 <= k < agenda.len() ==> (#[trigger] agenda[k]).variable < live.len(),
        forall|i: int| 0 <= i < live.len() ==> (#[trigger] live[i]).costs_fit(),
    ensures
        stores_view(res@) == stores(
            variables_view(live@),
            demands_view(agenda@),
            outcomes@,
            agenda.len() as int,
        ),
{
    let ghost all = variables_view(live@);
    let ghost entries = demands_view(agenda@);
    let mut res: Vec<Store> = Vec::new();
    let mut k: usize = 0;
    assert(stores_view(res@) =~= Seq::empty());
    while k < agenda.len()
        invariant
            k <= agenda.len(),
            outcomes.len() == agenda.len(),
            all == variables_view(live@),
            entries == demands_view(agenda@),
            forall|j: int| 0 <= j < agenda.len() ==> (#[trigger] agenda[j]).variable < live.len(),
            forall|i: int| 0 <= i < live.len() ==> (#[trigger] live[i]).costs_fit(),
            stores_view(res@) == stores(all, entries, outcomes@, k as int),
        decreases agenda.len() - k,
    {
        proof {
            assert(entries[k as int] == agenda[k as int]@);
            assert(all[agenda[k as int].variable as int] == live[agenda[k as int].variable as int]@);
        }
        if let Outcome::Spilled(offset) = outcomes[k] {
            if let Some(register) = live[agenda[k].variable].value_register() {
                let ghost before = stores_view(res@);
                let store = Store { register, offset };
                res.push(store);
                assert(stores_view(res@) =~= before.push(store@));
            }
        }
        k += 1;
    }
    res
}

/// Appends the text that performs `stores` to `text`.
pub fn emit_stores(text: &mut String, stores: &Vec<Store>)
    ensures
        final(text)@ == old(text)@ + stores_text(stores_view(stores@)),
{
    let ghost all = stores_view(stores@);
    let mut i: usize = 0;
    assert(all.skip(0) =~= all);
    assert(text@ + stores_text(all) =~= old(text)@ + stores_text(all));
    while i < stores.len()
        invariant
            i <= stores.len(),
            all == stores_view(stores@),
            text@ + stores_text(all.skip(i as int)) == old(text)@ + stores_text(all),
        decreases stores.len() - i,
    {
        let ghost rest = all.skip(i as int);
        let ghost before = text@;
        assert(rest[0] == stores[i as int]@);
        if i + 1 < stores.len() {
            assert(rest[1] == stores[i + 1]@);
            assert(rest.skip(2) =~= all.skip(i + 2));
            let first = &stores[i];
            let second = &stores[i + 1];
            if first.offset >= 8 && first.offset - 8 == second.offset {
                push_store_pair_line(text, &second.register, &first.register, second.offset);
            } else if second.offset >= 8 && second.offset - 8 == first.offset {
                push_store_pair_line(text, &first.register, &second.register, first.offset);
            } else {
                push_store_line(text, &first.register, first.offset);
                push_store_line(text, &second.register, second.offset);
            }
            assert(text@ =~= before + pair_text(rest[0], rest[1]));
            assert(text@ + stores_text(all.skip(i + 2)) =~= before + stores_text(rest));
            i += 2;
        } else {
            assert(rest.len() == 1);
            push_store_line(text, &stores[i].register, stores[i].offset);
            assert(all.skip(i + 1) =~= Seq::empty());
            assert(text@ + stores_text(all.skip(i + 1)) =~= before + stores_text(rest));
            i += 1;
        }
    }
    assert(all.skip(i as int) =~= Seq::empty());
    assert(text@ + stores_text(all.skip(i as int)) =~= text@);
}

} // verus!
