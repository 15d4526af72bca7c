//! Where hand-edited shoots go among a backbone's grown parts: replaced
//! shoots drop out, tucked edits go beneath the main sweep, every other edit
//! is drawn above everything grown.
use vstd::prelude::*;
use crate::text::str_eq;

verus! {

broadcast use vstd::seq_lib::group_seq_properties;

/// What the ordering reads of a shoot edit.
pub struct EditFlags {
    /// The id of the generated shoot this edit takes the place of.
    pub replaces: Option<String>,
    pub hidden: bool,
    pub under: bool,
}

/// One entry of the drawing order.
#[derive(Clone, Copy, PartialEq, Eq, Debug, Structural)]
pub enum Placed {
    /// The grown part at this index.
    Kept(usize),
    /// The part grown from the edit at this index.
    Grown(usize),
}

/// Whether an edit takes the place of the part with id `id`.
pub open spec fn replaces_id(e: EditFlags, id: Seq<char>) -> bool {
    match e.replaces {
        Some(r) => r@ == id,
        None => false,
    }
}

/// Whether some edit replaces the part with id `id`.
pub open spec fn replaced_by_any(edits: Seq<EditFlags>, id: Seq<char>) -> bool {
    exists|j: int| 0 <= j < edits.len() && replaces_id(#[trigger] edits[j], id)
}

/// Indices of the parts no edit replaces, in order.
pub open spec fn kept_parts(ids: Seq<String>, edits: Seq<EditFlags>) -> Seq<usize> {
    Seq::new(ids.len(), |i: int| i as usize).filter(|i: usize| !replaced_by_any(edits, ids[i as int]@))
}

/// Indices of the shown edits tucked (`under`) or not, in order.
pub open spec fn shown_edits(edits: Seq<EditFlags>, under: bool) -> Seq<usize> {
    Seq::new(edits.len(), |j: int| j as usize).filter(|j: usize| !edits[j as int].hidden && edits[j as int].under == under)
}

/// The drawing order of a backbone's parts once its edits are applied.
/// Without edits, or without a main sweep to grow them on, the parts stay
/// as grown.
pub open spec fn edit_order_spec(ids: Seq<String>, edits: Seq<EditFlags>, has_main: bool) -> Seq<Placed> {
    if edits.len() == 0 || !has_main {
        Seq::new(ids.len(), |i: int| Placed::Kept(i as usize))
    } else {
        shown_edits(edits, true).map_values(|j: usize| Placed::Grown(j))
            + kept_parts(ids, edits).map_values(|i: usize| Placed::Kept(i))
            + shown_edits(edits, false).map_values(|j: usize| Placed::Grown(j))
    }
}

/// Whether some edit replaces the part with id `id`.
pub fn is_replaced(edits: &Vec<EditFlags>, id: &String) -> (r: bool)
    ensures
        r == replaced_by_any(edits@, id@),
{
    let mut j: usize = 0;
    while j < edits.len()
        invariant
            j <= edits@.len(),
            forall|k: int| 0 <= k < j ==> !replaces_id(#[trigger] edits@[k], id@),
        decreases edits@.len() - j,
    {
        match &edits[j].replaces {
            Some(r) => {
                if str_eq(r.as_str(), id.as_str()) {
                    assert(replaces_id(edits@[j as int], id@));
                    return true;
                }
            },
            None => {},
        }
        j = j + 1;
    }
    false
}

/// Appends `Grown(j)` for the shown edits with the given `under` flag.
fn push_shown(out: &mut Vec<Placed>, edits: &Vec<EditFlags>, under: bool)
    ensures
        final(out)@ == old(out)@ + shown_edits(edits@, under).map_values(|j: usize| Placed::Grown(j)),
{
    let ghost start = out@;
    let ghost all = Seq::new(edits@.len(), |j: int| j as usize);
    let ghost pick = |j: usize| !edits@[j as int].hidden && edits@[j as int].under == under;
    let mut j: usize = 0;
    while j < edits.len()
        invariant
            j <= edits@.len(),
            all == Seq::new(edits@.len(), |j: int| j as usize),
            pick == (|j: usize| !edits@[j as int].hidden && edits@[j as int].under == under),
            out@ == start + all.take(j as int).filter(pick).map_values(|j: usize| Placed::Grown(j)),
        decreases edits@.len() - j,
    {
        proof {
            assert(all.take(j + 1) =~= all.take(j as int).push(j));
            all.take(j as int).lemma_filter_push(j, pick);
        }
        let e = &edits[j];
        if !e.hidden && e.under == under {
            out.push(Placed::Grown(j));
            proof {
                let f = all.take(j as int).filter(pick);
                assert(f.push(j).map_values(|j: usize| Placed::Grown(j)) =~= f.map_values(|j: usize| Placed::Grown(j)).push(
                    Placed::Grown(j),
                ));
            }
        }
        j = j + 1;
    }
    assert(all.take(j as int) =~= all);
}

/// The drawing order of a backbone's grown parts (by id) once its shoot
/// edits are applied: tucked edits first, then the parts no edit replaces,
/// then the other shown edits.
pub fn edit_order(ids: &Vec<String>, edits: &Vec<EditFlags>, has_main: bool) -> (r: Vec<Placed>)
    ensures
        r@ == edit_order_spec(ids@, edits@, has_main),
{
    let mut out: Vec<Placed> = Vec::new();
    if edits.len() == 0 || !has_main {
        let mut i: usize = 0;
        while i < ids.len()
            invariant
                i <= ids@.len(),
                out@ == Seq::new(i as nat, |k: int| Placed::Kept(k as usize)),
            decreases ids@.len() - i,
        {
            out.push(Placed::Kept(i));
            i = i + 1;
            assert(out@ =~= Seq::new(i as nat, |k: int| Placed::Kept(k as usize)));
        }
        return out;
    }
    push_shown(&mut out, edits, true);
    let ghost start = out@;
    let ghost all = Seq::new(ids@.len(), |i: int| i as usize);
    let ghost pick = |i: usize| !replaced_by_any(edits@, ids@[i as int]@);
    let mut i: usize = 0;
    while i < ids.len()
        invariant
            i <= ids@.len(),
            all == Seq::new(ids@.len(), |i: int| i as usize),
            pick == (|i: usize| !replaced_by_any(edits@, ids@[i as int]@)),
            out@ == start + all.take(i as int).filter(pick).map_values(|i: usize| Placed::Kept(i)),
        decreases ids@.len() - i,
    {
        proof {
            assert(all.take(i + 1) =~= all.take(i as int).push(i));
            all.take(i as int).lemma_filter_push(i, pick);
        }
        if !is_replaced(edits, &ids[i]) {
            out.push(Placed::Kept(i));
            proof {
                let f = all.take(i as int).filter(pick);
                assert(f.push(i).map_values(|i: usize| Placed::Kept(i)) =~= f.map_values(|i: usize| Placed::Kept(i)).push(
                    Placed::Kept(i),
                ));
            }
        }
        i = i + 1;
    }
    assert(all.take(i as int) =~= all);
    push_shown(&mut out, edits, false);
    out
}

/// Once edits apply on a backbone with a main sweep, a part that some edit
/// replaces (whether that edit is shown or hidden, as when the shoot was
/// deleted) is no longer drawn.
pub proof fn replaced_parts_drop_out(ids: Seq<String>, edits: Seq<EditFlags>, i: int, j: int)
    requires
        ids.len() <= usize::MAX,
        0 <= i < ids.len(),
        0 <= j < edits.len(),
        edits[j].replaces matches Some(r) && r@ == ids[i]@,
    ensures
        !edit_order_spec(ids, edits, true).contains(Placed::Kept(i as usize)),
{
    let grown_under = shown_edits(edits, true).map_values(|k: usize| Placed::Grown(k));
    let kept = kept_parts(ids, edits);
    let kept_order = kept.map_values(|k: usize| Placed::Kept(k));
    let grown_over = shown_edits(edits, false).map_values(|k: usize| Placed::Grown(k));
    let order = edit_order_spec(ids, edits, true);
    assert(replaces_id(edits[j], ids[i]@));
    assert(replaced_by_any(edits, ids[i]@));
    if order.contains(Placed::Kept(i as usize)) {
        let k = choose|k: int| 0 <= k < order.len() && order[k] == Placed::Kept(i as usize);
        assert(order == grown_under + kept_order + grown_over);
        if k < grown_under.len() {
            assert(order[k] == grown_under[k]);
        } else if k < grown_under.len() + kept_order.len() {
            let m = k - grown_under.len();
            assert(order[k] == kept_order[m]);
            assert(kept[m] == i as usize);
            let all = Seq::new(ids.len(), |t: int| t as usize);
            all.lemma_filter_pred(|t: usize| !replaced_by_any(edits, ids[t as int]@), m);
        } else {
            assert(order[k] == grown_over[k - grown_under.len() - kept_order.len()]);
        }
    }
}

/// Once edits apply on a backbone with a main sweep, a part that no edit
/// replaces is still drawn.
pub proof fn unreplaced_parts_stay(ids: Seq<String>, edits: Seq<EditFlags>, i: int)
    requires
        ids.len() <= usize::MAX,
        0 <= i < ids.len(),
        forall|j: int| 0 <= j < edits.len() ==> !(#[trigger] edits[j].replaces matches Some(r) && r@ == ids[i]@),
    ensures
        edit_order_spec(ids, edits, true).contains(Placed::Kept(i as usize)),
{
    let order = edit_order_spec(ids, edits, true);
    if edits.len() == 0 {
        assert(order[i] == Placed::Kept(i as usize));
    } else {
        let grown_under = shown_edits(edits, true).map_values(|k: usize| Placed::Grown(k));
        let kept = kept_parts(ids, edits);
        let kept_order = kept.map_values(|k: usize| Placed::Kept(k));
        let all = Seq::new(ids.len(), |t: int| t as usize);
        assert(!replaced_by_any(edits, ids[i]@)) by {
            if replaced_by_any(edits, ids[i]@) {
                let j = choose|j: int| 0 <= j < edits.len() && replaces_id(#[trigger] edits[j], ids[i]@);
                assert(!(edits[j].replaces matches Some(r) && r@ == ids[i]@));
            }
        }
        assert(all[i] == i as usize);
        all.lemma_filter_contains(|t: usize| !replaced_by_any(edits, ids[t as int]@), i);
        let m = choose|m: int| 0 <= m < kept.len() && kept[m] == i as usize;
        assert(order[grown_under.len() + m] == kept_order[m]);
    }
}

/// Once edits apply on a backbone with a main sweep, edit `j` is drawn
/// exactly when it is not hidden: beneath the parts when tucked under, above
/// them otherwise.
pub proof fn shown_edits_are_drawn(ids: Seq<String>, edits: Seq<EditFlags>, j: int)
    requires
        edits.len() <= usize::MAX,
        0 <= j < edits.len(),
    ensures
        edit_order_spec(ids, edits, true).contains(Placed::Grown(j as usize)) == !edits[j].hidden,
        !edits[j].hidden && edits[j].under ==> shown_edits(edits, true).contains(j as usize),
        !edits[j].hidden && !edits[j].under ==> shown_edits(edits, false).contains(j as usize),
{
    let order = edit_order_spec(ids, edits, true);
    let all = Seq::new(edits.len(), |t: int| t as usize);
    let under = edits[j].under;
    let pick = |t: usize| !edits[t as int].hidden && edits[t as int].under == under;
    let shown = shown_edits(edits, under);
    let gu = shown_edits(edits, true).map_values(|k: usize| Placed::Grown(k));
    let ko = kept_parts(ids, edits).map_values(|k: usize| Placed::Kept(k));
    let go = shown_edits(edits, false).map_values(|k: usize| Placed::Grown(k));
    assert(order == gu + ko + go);
    assert(all[j] == j as usize);
    if !edits[j].hidden {
        all.lemma_filter_contains(pick, j);
        let m = choose|m: int| 0 <= m < shown.len() && shown[m] == j as usize;
        if under {
            assert(order[m] == gu[m]);
        } else {
            assert(order[gu.len() + ko.len() + m] == go[m]);
        }
    } else if order.contains(Placed::Grown(j as usize)) {
        let k = choose|k: int| 0 <= k < order.len() && order[k] == Placed::Grown(j as usize);
        if k < gu.len() {
            assert(order[k] == gu[k]);
            all.lemma_filter_pred(|t: usize| !edits[t as int].hidden && edits[t as int].under == true, k);
        } else if k < gu.len() + ko.len() {
            assert(order[k] == ko[k - gu.len()]);
        } else {
            let m = k - gu.len() - ko.len();
            assert(order[k] == go[m]);
            all.lemma_filter_pred(|t: usize| !edits[t as int].hidden && edits[t as int].under == false, m);
        }
    }
}

/// An edit takes the place of a part exactly when its `replaces` names that
/// part, shown or hidden.
pub proof fn replacing_is_by_name(edits: Seq<EditFlags>, id: Seq<char>)
    ensures
        replaced_by_any(edits, id) <==> exists|j: int|
            0 <= j < edits.len() && (#[trigger] edits[j].replaces matches Some(r) && r@ == id),
{
    if replaced_by_any(edits, id) {
        let j = choose|j: int| 0 <= j < edits.len() && replaces_id(#[trigger] edits[j], id);
        assert(edits[j].replaces matches Some(r) && r@ == id);
    }
    if exists|j: int| 0 <= j < edits.len() && (#[trigger] edits[j].replaces matches Some(r) && r@ == id) {
        let j = choose|j: int| 0 <= j < edits.len() && (#[trigger] edits[j].replaces matches Some(r) && r@ == id);
        assert(replaces_id(edits[j], id));
    }
}

} // verus!
