//! What the drawing's name tables need before a save: which Land Survey
//! application ids to register or re-handle, and which entity layers to add.
//! The drawing's tables find names regardless of case, by comparing their
//! Unicode upper case (`upper`).
use vstd::prelude::*;

use crate::dispatch::{to_upper, upper};
use crate::text::{chars_equal, chars_of};
use crate::xdata::{XDATA_PLAN, XDATA_POINT, XDATA_SURFACE};

verus! {

/// Whether `table` holds a name that the drawing's tables take for `name`.
pub open spec fn in_table(table: Seq<Seq<char>>, name: Seq<char>) -> bool {
    exists|k: int| 0 <= k < table.len() && upper(#[trigger] table[k]) == upper(name)
}

/// The layers to add for the first `n` entity layer names, in order: a
/// non-empty name that neither the table nor an earlier added layer already
/// holds (up to case).
pub open spec fn layers_added(names: Seq<Seq<char>>, table: Seq<Seq<char>>, n: int) -> Seq<
    Seq<char>,
>
    decreases n,
{
    if n <= 0 {
        seq![]
    } else {
        let prev = layers_added(names, table, n - 1);
        let x = names[n - 1];
        if x.len() == 0 || in_table(table + prev, x) {
            prev
        } else {
            prev.push(x)
        }
    }
}

/// The character sequences held by a list of strings.
pub open spec fn names_of(v: Seq<String>) -> Seq<Seq<char>> {
    v.map_values(|s: String| s@)
}

fn uppers(v: &Vec<String>) -> (r: Vec<Vec<char>>)
    ensures
        r@.len() == v@.len(),
        forall|k: int| 0 <= k < r@.len() ==> (#[trigger] r@[k])@ == upper(v@[k]@),
{
    let mut r: Vec<Vec<char>> = Vec::new();
    let mut k: usize = 0;
    while k < v.len()
        invariant
            k <= v@.len(),
            r@.len() == k,
            forall|j: int| 0 <= j < k ==> (#[trigger] r@[j])@ == upper(v@[j]@),
        decreases v@.len() - k,
    {
        let u = to_upper(v[k].as_str());
        r.push(chars_of(u.as_str()));
        k = k + 1;
    }
    r
}

fn holds_upper(us: &Vec<Vec<char>>, u: &Vec<char>) -> (r: bool)
    ensures
        r == exists|k: int| 0 <= k < us@.len() && (#[trigger] us@[k])@ == u@,
{
    let mut k: usize = 0;
    while k < us.len()
        invariant
            k <= us@.len(),
            forall|j: int| 0 <= j < k ==> (#[trigger] us@[j])@ != u@,
        decreases us@.len() - k,
    {
        if chars_equal(us[k].as_slice(), u.as_slice()) {
            return true;
        }
        k = k + 1;
    }
    false
}

/// The layers to register so that every entity's layer has a table entry
/// (see [`layers_added`]): `entity_layers` are the entities' layer names,
/// `table` the layer table's names.
pub fn layers_to_add(entity_layers: &Vec<String>, table: &Vec<String>) -> (r: Vec<String>)
    ensures
        names_of(r@) == layers_added(names_of(entity_layers@), names_of(table@), entity_layers@.len() as int),
{
    let ghost names = names_of(entity_layers@);
    let ghost tab = names_of(table@);
    let mut known = uppers(table);
    let mut out: Vec<String> = Vec::new();
    let mut i: usize = 0;
    while i < entity_layers.len()
        invariant
            names == names_of(entity_layers@),
            tab == names_of(table@),
            i <= entity_layers@.len(),
            names_of(out@) == layers_added(names, tab, i as int),
            known@.len() == (tab + names_of(out@)).len(),
            forall|k: int| 0 <= k < known@.len() ==> (#[trigger] known@[k])@ == upper(
                (tab + names_of(out@))[k],
            ),
        decreases entity_layers@.len() - i,
    {
        let x = &entity_layers[i];
        let ghost all = tab + names_of(out@);
        let ghost prev = names_of(out@);
        assert(names[i as int] == x@);
        let u = to_upper(x.as_str());
        let uc = chars_of(u.as_str());
        let empty = chars_of(x.as_str()).len() == 0;
        let held = holds_upper(&known, &uc);
        assert(held == in_table(all, x@)) by {
            if held {
                let k = choose|k: int| 0 <= k < known@.len() && (#[trigger] known@[k])@ == uc@;
                assert(upper(all[k]) == upper(x@));
            }
            if in_table(all, x@) {
                let k = choose|k: int| 0 <= k < all.len() && upper(#[trigger] all[k]) == upper(x@);
                assert(known@[k]@ == uc@);
            }
        }
        if !empty && !held {
            known.push(uc);
            out.push(x.clone());
            assert(names_of(out@) =~= prev.push(x@));
            assert(tab + names_of(out@) =~= all.push(x@));
            assert forall|k: int| 0 <= k < known@.len() implies (#[trigger] known@[k])@ == upper(
                (tab + names_of(out@))[k],
            ) by {
                if k < all.len() {
                    assert((tab + names_of(out@))[k] == all[k]);
                }
            }
        }
        i = i + 1;
    }
    out
}

/// What a Land Survey application id needs in the drawing's APPID table.
#[derive(Debug, Clone, Copy, PartialEq, Eq, Structural)]
pub enum AppIdAction {
    /// No entry: register it with a new handle.
    Add,
    /// An entry with a null handle: give it a new handle.
    SetHandle,
    /// An entry with a handle: nothing to do.
    Keep,
}

/// The first entry of `table` (name, whether its handle is null) that the
/// drawing takes for `name`.
pub open spec fn first_entry(table: Seq<(Seq<char>, bool)>, name: Seq<char>, k: int) -> Option<int>
    decreases table.len() - k,
{
    if k < 0 || k >= table.len() {
        None
    } else if upper(table[k].0) == upper(name) {
        Some(k)
    } else {
        first_entry(table, name, k + 1)
    }
}

/// What the application id `name` needs (see [`AppIdAction`]).
pub open spec fn app_id_action(table: Seq<(Seq<char>, bool)>, name: Seq<char>) -> AppIdAction {
    match first_entry(table, name, 0) {
        None => AppIdAction::Add,
        Some(k) => if table[k].1 {
            AppIdAction::SetHandle
        } else {
            AppIdAction::Keep
        },
    }
}

/// The APPID table as (name, null handle) pairs of plain values.
pub open spec fn entries_of(v: Seq<(String, bool)>) -> Seq<(Seq<char>, bool)> {
    v.map_values(|e: (String, bool)| (e.0@, e.1))
}

fn action_for(table: &Vec<(String, bool)>, name: &str) -> (r: AppIdAction)
    ensures
        r == app_id_action(entries_of(table@), name@),
{
    let ghost t = entries_of(table@);
    let u = chars_of(to_upper(name).as_str());
    let mut k: usize = 0;
    while k < table.len()
        invariant
            t == entries_of(table@),
            k <= table@.len(),
            u@ == upper(name@),
            first_entry(t, name@, 0) == first_entry(t, name@, k as int),
        decreases table@.len() - k,
    {
        let e = chars_of(to_upper(table[k].0.as_str()).as_str());
        assert(t[k as int].0 == table@[k as int].0@);
        if chars_equal(e.as_slice(), u.as_slice()) {
            return if table[k].1 {
                AppIdAction::SetHandle
            } else {
                AppIdAction::Keep
            };
        }
        k = k + 1;
    }
    AppIdAction::Add
}

/// What each Land Survey application id (`LANDSURVEY_POINT`,
/// `LANDSURVEY_PLAN`, `LANDSURVEY_SURFACE`, in that order) needs, given the
/// APPID table as (name, whether its handle is null) pairs.
pub fn app_id_actions(table: &Vec<(String, bool)>) -> (r: [AppIdAction; 3])
    ensures
        r[0] == app_id_action(entries_of(table@), XDATA_POINT@),
        r[1] == app_id_action(entries_of(table@), XDATA_PLAN@),
        r[2] == app_id_action(entries_of(table@), XDATA_SURFACE@),
{
    [action_for(table, XDATA_POINT), action_for(table, XDATA_PLAN), action_for(table, XDATA_SURFACE)]
}

} // verus!
