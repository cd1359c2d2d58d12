//! Pending-row bookkeeping shared by output and DIBL measurements: the
//! match-set upsert and the terminal ordering of pending effects.

use vstd::prelude::*;
use crate::source::{lemma_same_named_symmetric, same_named, DiblSource, OutputSource, Provenance, ProvenanceView};

verus! {

/// A value that carries the provenance of one measurement file.
pub trait Attributed {
    spec fn prov(&self) -> ProvenanceView;

    fn provenance(&self) -> (r: &Provenance)
        ensures
            r@ == self.prov(),
    ;
}

/// `v` names the file described by `pv`.
pub open spec fn names(pv: ProvenanceView) -> spec_fn(ProvenanceView) -> bool {
    |v: ProvenanceView| same_named(v, pv)
}

/// Keeps the rows that name a file other than the one described by `pv`.
pub open spec fn differs<P: Attributed>(pv: ProvenanceView) -> spec_fn(P) -> bool {
    |v: P| !same_named(v.prov(), pv)
}

/// Some row of `s` names the file described by `pv`.
pub open spec fn has_match<P: Attributed>(s: Seq<P>, pv: ProvenanceView) -> bool {
    exists|i: int| 0 <= i < s.len() && same_named(#[trigger] s[i].prov(), pv)
}

/// Index of the first row in `s` that names the file described by `pv`.
pub open spec fn first_match<P: Attributed>(s: Seq<P>, pv: ProvenanceView) -> int
    recommends
        has_match(s, pv),
{
    choose|i: int|
        0 <= i < s.len() && same_named(s[i].prov(), pv) && forall|j: int|
            0 <= j < i ==> !same_named(#[trigger] s[j].prov(), pv)
}

/// `x` replaces the whole set of rows that name its file, standing where the
/// earliest of them stood; with no such row it goes last.
pub open spec fn upserted<P: Attributed>(s: Seq<P>, x: P) -> Seq<P> {
    if has_match(s, x.prov()) {
        let i = first_match(s, x.prov());
        s.take(i) + seq![x] + s.skip(i).filter(differs::<P>(x.prov()))
    } else {
        s.push(x)
    }
}

proof fn lemma_first_match_is<P: Attributed>(s: Seq<P>, pv: ProvenanceView, k: int)
    requires
        0 <= k < s.len(),
        same_named(s[k].prov(), pv),
        forall|j: int| 0 <= j < k ==> !same_named(#[trigger] s[j].prov(), pv),
    ensures
        has_match(s, pv),
        first_match(s, pv) == k,
{
    assert(same_named(s[k].prov(), pv));
    let i = first_match(s, pv);
    if i < k {
        assert(!same_named(s[i].prov(), pv));
    } else if i > k {
        assert(!same_named(s[k].prov(), pv));
    }
}

/// Moves the rows of `rest` that do not name `key`'s file onto the end of `out`.
fn append_differing<P: Attributed>(out: &mut Vec<P>, rest: Vec<P>, key: &Provenance)
    ensures
        final(out)@ == old(out)@ + rest@.filter(differs::<P>(key@)),
{
    let ghost orig = rest@;
    let ghost pred = differs::<P>(key@);
    let mut rest = rest;
    let ghost mut k: int = 0;
    let ghost start = out@;
    assert(orig.take(0).filter(pred) =~= Seq::<P>::empty()) by {
        reveal(Seq::filter);
    }
    assert(out@ =~= start + orig.take(0).filter(pred));
    while rest.len() > 0
        invariant
            0 <= k <= orig.len(),
            rest@ =~= orig.skip(k),
            pred == differs::<P>(key@),
            out@ == start + orig.take(k).filter(pred),
        decreases rest@.len(),
    {
        let v = rest.remove(0);
        proof {
            assert(v == orig[k]);
            assert(orig.take(k + 1) =~= orig.take(k).push(orig[k]));
            orig.take(k).lemma_filter_push(orig[k], pred);
        }
        let same = v.provenance().same_as(key);
        if !same {
            out.push(v);
            assert(out@ =~= start + orig.take(k + 1).filter(pred));
        }
        proof {
            k = k + 1;
        }
    }
    assert(orig.take(k) =~= orig);
}

/// Index of the first row naming the file of `key`, if any.
pub fn find_match<P: Attributed>(values: &Vec<P>, key: &Provenance) -> (r: Option<usize>)
    ensures
        r is None <==> !has_match(values@, key@),
        r matches Some(i) ==> i < values@.len() && first_match(values@, key@) == i,
{
    let n = values.len();
    let mut i: usize = 0;
    while i < n
        invariant
            n == values@.len(),
            i <= n,
            forall|j: int| 0 <= j < i ==> !same_named(#[trigger] values@[j].prov(), key@),
        decreases n - i,
    {
        if values[i].provenance().same_as(key) {
            proof {
                lemma_first_match_is(values@, key@, i as int);
            }
            return Some(i);
        }
        i = i + 1;
    }
    None
}

/// Replaces the complete same-file set of `incoming` at its earliest position.
pub fn upsert_match_set<P: Attributed>(values: &mut Vec<P>, incoming: P)
    ensures
        final(values)@ == upserted(old(values)@, incoming),
{
    let key = incoming.provenance().duplicate();
    match find_match(values, &key) {
        None => {
            values.push(incoming);
        },
        Some(i) => {
            let rest = values.split_off(i);
            values.push(incoming);
            append_differing(values, rest, &key);
        },
    }
}


impl Attributed for OutputSource {
    open spec fn prov(&self) -> ProvenanceView {
        self@
    }

    fn provenance(&self) -> (r: &Provenance) {
        OutputSource::provenance(self)
    }
}

impl Attributed for DiblSource {
    open spec fn prov(&self) -> ProvenanceView {
        self@
    }

    fn provenance(&self) -> (r: &Provenance) {
        DiblSource::provenance(self)
    }
}

/// Removes every row that names the file of `key`.
pub fn retain_differing<P: Attributed>(values: &mut Vec<P>, key: &Provenance)
    ensures
        final(values)@ == old(values)@.filter(differs::<P>(key@)),
{
    let all = values.split_off(0);
    assert(values@ =~= Seq::<P>::empty());
    assert(all@ =~= old(values)@);
    append_differing(values, all, key);
    assert(values@ =~= old(values)@.filter(differs::<P>(key@)));
}

// ---------------------------------------------------------------------------
// Terminal ordering of pending effects
// ---------------------------------------------------------------------------

/// What one finished job asks of the pending list.
pub enum PendingEffect<S, P> {
    /// A measurement that an attachment displaced, captured before the command
    /// ran (no generation of its own).
    PreCommandDisplacement { ordinal: usize, pending: P },
    /// A measurement the user detached from the current device.
    CurrentDetach(P),
    /// A successful import of `source` clears older pending rows of that file.
    FreshClear { ordinal: usize, source: S },
    /// A measurement that stays pending, with the generation `ordinal`.
    FreshPending { ordinal: usize, pending: P },
}

pub open spec fn is_fresh<S, P>(e: PendingEffect<S, P>) -> bool {
    e is FreshClear || e is FreshPending
}

pub open spec fn is_displacement<S, P>(e: PendingEffect<S, P>) -> bool {
    e is PreCommandDisplacement
}

pub open spec fn is_detach<S, P>(e: PendingEffect<S, P>) -> bool {
    e is CurrentDetach
}

/// Fresh effects order by generation; within one generation the clear comes
/// first, so a displaced payload of the same generation survives it.
pub open spec fn fresh_key<S, P>(e: PendingEffect<S, P>) -> int {
    match e {
        PendingEffect::FreshClear { ordinal, .. } => 2 * ordinal,
        PendingEffect::FreshPending { ordinal, .. } => 2 * ordinal + 1,
        _ => 0,
    }
}

pub open spec fn displacement_key<S, P>(e: PendingEffect<S, P>) -> int {
    match e {
        PendingEffect::PreCommandDisplacement { ordinal, .. } => ordinal as int,
        _ => 0,
    }
}

/// The sort key: the fresh key for fresh effects, else the displacement key.
pub open spec fn effect_key<S, P>(e: PendingEffect<S, P>, fresh: bool) -> int {
    if fresh {
        fresh_key(e)
    } else {
        displacement_key(e)
    }
}

/// Number of effects of `t` whose key is at most `k`.
pub open spec fn count_key_le<S, P>(t: Seq<PendingEffect<S, P>>, fresh: bool, k: int) -> nat
    decreases t.len(),
{
    if t.len() == 0 {
        0
    } else {
        count_key_le(t.drop_last(), fresh, k) + if effect_key(t.last(), fresh) <= k {
            1nat
        } else {
            0nat
        }
    }
}

/// Stable sort by key: each effect, in order, goes after every effect already
/// placed whose key is at most its own.
pub open spec fn sort_by_key<S, P>(s: Seq<PendingEffect<S, P>>, fresh: bool) -> Seq<PendingEffect<S, P>>
    decreases s.len(),
{
    if s.len() == 0 {
        s
    } else {
        let t = sort_by_key(s.drop_last(), fresh);
        t.insert(count_key_le(t, fresh, effect_key(s.last(), fresh)) as int, s.last())
    }
}

pub open spec fn fresh_effects<S, P>() -> spec_fn(PendingEffect<S, P>) -> bool {
    |e: PendingEffect<S, P>| is_fresh(e)
}

pub open spec fn displacement_effects<S, P>() -> spec_fn(PendingEffect<S, P>) -> bool {
    |e: PendingEffect<S, P>| is_displacement(e)
}

pub open spec fn detach_effects<S, P>() -> spec_fn(PendingEffect<S, P>) -> bool {
    |e: PendingEffect<S, P>| is_detach(e)
}

/// A successful import in `effects` names the file described by `pv`.
pub open spec fn superseded<S: Attributed, P>(effects: Seq<PendingEffect<S, P>>, pv: ProvenanceView) -> bool {
    exists|i: int|
        0 <= i < effects.len() && (#[trigger] effects[i] matches PendingEffect::FreshClear { source, .. } && same_named(source.prov(), pv))
}

pub open spec fn apply_fresh<S: Attributed, P: Attributed>(rows: Seq<P>, e: PendingEffect<S, P>) -> Seq<P> {
    match e {
        PendingEffect::FreshClear { source, .. } => rows.filter(differs::<P>(source.prov())),
        PendingEffect::FreshPending { pending, .. } => upserted(rows, pending),
        _ => rows,
    }
}

pub open spec fn fold_fresh<S: Attributed, P: Attributed>(rows: Seq<P>, es: Seq<PendingEffect<S, P>>) -> Seq<P>
    decreases es.len(),
{
    if es.len() == 0 {
        rows
    } else {
        apply_fresh(fold_fresh(rows, es.drop_last()), es.last())
    }
}

pub open spec fn effect_pending<S, P>(e: PendingEffect<S, P>) -> P
    recommends
        e is PreCommandDisplacement || e is CurrentDetach,
{
    match e {
        PendingEffect::PreCommandDisplacement { pending, .. } => pending,
        PendingEffect::CurrentDetach(pending) => pending,
        PendingEffect::FreshPending { pending, .. } => pending,
        PendingEffect::FreshClear { .. } => arbitrary(),
    }
}

/// Displaced rows return unless a successful import or a newer pending row
/// already names their file.
pub open spec fn fold_displaced<S: Attributed, P: Attributed>(
    acc: Seq<P>,
    ds: Seq<PendingEffect<S, P>>,
    newer: Seq<P>,
    effects: Seq<PendingEffect<S, P>>,
) -> Seq<P>
    decreases ds.len(),
{
    if ds.len() == 0 {
        acc
    } else {
        let prev = fold_displaced(acc, ds.drop_last(), newer, effects);
        let p = effect_pending(ds.last());
        if !superseded(effects, p.prov()) && !has_match(newer, p.prov()) {
            upserted(prev, p)
        } else {
            prev
        }
    }
}

/// Detached rows go last unless a successful import or a pending row already
/// names their file.
pub open spec fn fold_detached<S: Attributed, P: Attributed>(
    rows: Seq<P>,
    ds: Seq<PendingEffect<S, P>>,
    effects: Seq<PendingEffect<S, P>>,
) -> Seq<P>
    decreases ds.len(),
{
    if ds.len() == 0 {
        rows
    } else {
        let prev = fold_detached(rows, ds.drop_last(), effects);
        let p = effect_pending(ds.last());
        if !superseded(effects, p.prov()) && !has_match(prev, p.prov()) {
            prev.push(p)
        } else {
            prev
        }
    }
}

/// The pending list after applying `effects` to `rows`: fresh effects in
/// generation order, then the displaced rows (by ordinal) ahead of the rows
/// that are newer, then the detached rows.
pub open spec fn pending_after<S: Attributed, P: Attributed>(
    rows: Seq<P>,
    effects: Seq<PendingEffect<S, P>>,
) -> Seq<P> {
    let fresh = sort_by_key(effects.filter(fresh_effects()), true);
    let newer = fold_fresh(rows, fresh);
    let displaced = sort_by_key(effects.filter(displacement_effects()), false);
    let middle = fold_displaced(Seq::<P>::empty(), displaced, newer, effects) + newer;
    fold_detached(middle, effects.filter(detach_effects()), effects)
}

fn fresh_le<S, P>(a: &PendingEffect<S, P>, b: &PendingEffect<S, P>) -> (r: bool)
    requires
        is_fresh(*a),
        is_fresh(*b),
    ensures
        r == (fresh_key(*a) <= fresh_key(*b)),
{
    let (oa, ta): (usize, u8) = match a {
        PendingEffect::FreshClear { ordinal, .. } => (*ordinal, 0),
        PendingEffect::FreshPending { ordinal, .. } => (*ordinal, 1),
        _ => (0, 0),
    };
    let (ob, tb): (usize, u8) = match b {
        PendingEffect::FreshClear { ordinal, .. } => (*ordinal, 0),
        PendingEffect::FreshPending { ordinal, .. } => (*ordinal, 1),
        _ => (0, 0),
    };
    oa < ob || (oa == ob && ta <= tb)
}

fn displacement_le<S, P>(a: &PendingEffect<S, P>, b: &PendingEffect<S, P>) -> (r: bool)
    ensures
        r == (displacement_key(*a) <= displacement_key(*b)),
{
    let oa: usize = match a {
        PendingEffect::PreCommandDisplacement { ordinal, .. } => *ordinal,
        _ => 0,
    };
    let ob: usize = match b {
        PendingEffect::PreCommandDisplacement { ordinal, .. } => *ordinal,
        _ => 0,
    };
    oa <= ob
}

/// Inserts `x` into `out` after every element whose key is at most its own.
fn insert_sorted<S, P>(out: &mut Vec<PendingEffect<S, P>>, x: PendingEffect<S, P>, fresh: bool)
    requires
        fresh ==> is_fresh(x),
        fresh ==> forall|i: int| 0 <= i < old(out)@.len() ==> is_fresh(#[trigger] old(out)@[i]),
    ensures
        final(out)@ == old(out)@.insert(count_key_le(old(out)@, fresh, effect_key(x, fresh)) as int, x),
{
    let mut pos: usize = 0;
    let mut i: usize = 0;
    let n = out.len();
    while i < n
        invariant
            n == out@.len(),
            out@ == old(out)@,
            i <= n,
            pos <= i,
            pos == count_key_le(out@.take(i as int), fresh, effect_key(x, fresh)),
            fresh ==> is_fresh(x),
            fresh ==> forall|j: int| 0 <= j < out@.len() ==> is_fresh(#[trigger] out@[j]),
        decreases n - i,
    {
        proof {
            assert(out@.take(i + 1).drop_last() =~= out@.take(i as int));
        }
        let le = if fresh {
            fresh_le(&out[i], &x)
        } else {
            displacement_le(&out[i], &x)
        };
        if le {
            pos = pos + 1;
        }
        i = i + 1;
    }
    assert(out@.take(n as int) =~= out@);
    out.insert(pos, x);
}

/// Applies one fresh effect to the pending rows.
fn apply_fresh_exec<S: Attributed, P: Attributed>(rows: &mut Vec<P>, e: PendingEffect<S, P>)
    ensures
        final(rows)@ == apply_fresh(old(rows)@, e),
{
    match e {
        PendingEffect::FreshClear { source, .. } => {
            let key = source.provenance().duplicate();
            retain_differing(rows, &key);
        },
        PendingEffect::FreshPending { pending, .. } => {
            upsert_match_set(rows, pending);
        },
        _ => {},
    }
}

/// Whether some provenance in `keys` names the file described by `key`.
pub fn any_same(keys: &Vec<Provenance>, key: &Provenance) -> (r: bool)
    ensures
        r == exists|j: int| 0 <= j < keys@.len() && same_named((#[trigger] keys@[j])@, key@),
{
    let mut i: usize = 0;
    while i < keys.len()
        invariant
            i <= keys@.len(),
            forall|j: int| 0 <= j < i ==> !same_named((#[trigger] keys@[j])@, key@),
        decreases keys@.len() - i,
    {
        if keys[i].same_as(key) {
            return true;
        }
        i = i + 1;
    }
    false
}

/// Orders all pending effects of one commit into `pending_rows`: fresh effects
/// by generation (clear before pending), then displaced rows by ordinal ahead
/// of the newer rows, then detached rows; a successful import of a file keeps
/// every displaced or detached copy of that file out.
pub fn apply_pending_effects<S: Attributed, P: Attributed>(
    pending_rows: &mut Vec<P>,
    effects: Vec<PendingEffect<S, P>>,
)
    ensures
        final(pending_rows)@ == pending_after(old(pending_rows)@, effects@),
{
    let ghost all = effects@;
    let ghost fresh_pred = fresh_effects::<S, P>();
    let ghost disp_pred = displacement_effects::<S, P>();
    let ghost det_pred = detach_effects::<S, P>();

    // Partition, sorting the fresh and displaced effects as they arrive and
    // collecting the sources that successful imports attached.
    let mut rest = effects;
    let mut fresh: Vec<PendingEffect<S, P>> = Vec::new();
    let mut displaced: Vec<PendingEffect<S, P>> = Vec::new();
    let mut detached: Vec<PendingEffect<S, P>> = Vec::new();
    let mut attached: Vec<Provenance> = Vec::new();
    let ghost mut k: int = 0;
    proof {
        reveal(Seq::filter);
        assert(all.take(0) =~= Seq::<PendingEffect<S, P>>::empty());
    }
    while rest.len() > 0
        invariant
            0 <= k <= all.len(),
            rest@ =~= all.skip(k),
            fresh_pred == fresh_effects::<S, P>(),
            disp_pred == displacement_effects::<S, P>(),
            det_pred == detach_effects::<S, P>(),
            fresh@ == sort_by_key(all.take(k).filter(fresh_pred), true),
            forall|j: int| 0 <= j < fresh@.len() ==> is_fresh(#[trigger] fresh@[j]),
            displaced@ == sort_by_key(all.take(k).filter(disp_pred), false),
            detached@ == all.take(k).filter(det_pred),
            forall|pv: ProvenanceView|
                (exists|j: int| 0 <= j < attached@.len() && same_named((#[trigger] attached@[j])@, pv))
                    <==> superseded(all.take(k), pv),
        decreases rest@.len(),
    {
        let e = rest.remove(0);
        let ghost ge = e;
        proof {
            assert(e == all[k]);
            assert(all.take(k + 1) =~= all.take(k).push(all[k]));
            all.take(k).lemma_filter_push(all[k], fresh_pred);
            all.take(k).lemma_filter_push(all[k], disp_pred);
            all.take(k).lemma_filter_push(all[k], det_pred);
            lemma_sorted_fresh(all.take(k).filter(fresh_pred));
        }
        let ghost old_attached = attached@;
        match e {
            PendingEffect::FreshClear { ordinal, source } => {
                attached.push(source.provenance().duplicate());
                insert_sorted(&mut fresh, PendingEffect::FreshClear { ordinal, source }, true);
                proof {
                    lemma_fresh_step(all.take(k).filter(fresh_pred), ge);
                }
            },
            PendingEffect::FreshPending { ordinal, pending } => {
                insert_sorted(&mut fresh, PendingEffect::FreshPending { ordinal, pending }, true);
                proof {
                    lemma_fresh_step(all.take(k).filter(fresh_pred), ge);
                }
            },
            PendingEffect::PreCommandDisplacement { ordinal, pending } => {
                insert_sorted(
                    &mut displaced,
                    PendingEffect::PreCommandDisplacement { ordinal, pending },
                    false,
                );
                proof {
                    let ds = all.take(k).filter(disp_pred);
                    assert(ds.push(ge).drop_last() =~= ds);
                }
            },
            PendingEffect::CurrentDetach(pending) => {
                detached.push(PendingEffect::CurrentDetach(pending));
            },
        }
        proof {
            let t = all.take(k + 1);
            assert forall|pv: ProvenanceView|
                (exists|j: int| 0 <= j < attached@.len() && same_named((#[trigger] attached@[j])@, pv))
                    <==> superseded(t, pv) by {
                if exists|j: int| 0 <= j < attached@.len() && same_named((#[trigger] attached@[j])@, pv) {
                    let j = choose|j: int| 0 <= j < attached@.len() && same_named((#[trigger] attached@[j])@, pv);
                    if j < old_attached.len() {
                        assert(attached@[j] == old_attached[j]);
                        assert(superseded(all.take(k), pv));
                        let i = choose|i: int| 0 <= i < all.take(k).len() && (#[trigger] all.take(k)[i] matches PendingEffect::FreshClear { source, .. } && same_named(source.prov(), pv));
                        assert(t[i] == all.take(k)[i]);
                    } else {
                        assert(t[k] == ge);
                    }
                }
                if superseded(t, pv) {
                    let i = choose|i: int| 0 <= i < t.len() && (#[trigger] t[i] matches PendingEffect::FreshClear { source, .. } && same_named(source.prov(), pv));
                    if i < k {
                        assert(all.take(k)[i] == t[i]);
                        assert(superseded(all.take(k), pv));
                        let j = choose|j: int| 0 <= j < old_attached.len() && same_named((#[trigger] old_attached[j])@, pv);
                        assert(attached@[j] == old_attached[j]);
                    } else {
                        assert(attached@[old_attached.len() as int]@ == ge->source.prov());
                    }
                }
            }
            k = k + 1;
        }
    }
    proof {
        assert(all.take(k) =~= all);
    }

    // Fresh effects, in generation order.
    let ghost fresh_sorted = fresh@;
    let ghost start = pending_rows@;
    let mut fresh = fresh;
    let ghost mut f: int = 0;
    assert(fresh_sorted.take(0) =~= Seq::<PendingEffect<S, P>>::empty());
    while fresh.len() > 0
        invariant
            0 <= f <= fresh_sorted.len(),
            fresh@ =~= fresh_sorted.skip(f),
            pending_rows@ == fold_fresh(start, fresh_sorted.take(f)),
        decreases fresh@.len(),
    {
        let e = fresh.remove(0);
        proof {
            assert(e == fresh_sorted[f]);
            assert(fresh_sorted.take(f + 1).drop_last() =~= fresh_sorted.take(f));
        }
        apply_fresh_exec(pending_rows, e);
        proof {
            f = f + 1;
        }
    }
    proof {
        assert(fresh_sorted.take(f) =~= fresh_sorted);
    }

    // Displaced rows, by ordinal, ahead of the rows that are newer.
    let ghost newer_view = pending_rows@;
    let mut newer: Vec<P> = Vec::new();
    std::mem::swap(&mut newer, pending_rows);
    let ghost disp_sorted = displaced@;
    proof {
        assert forall|i: int| 0 <= i < all.filter(disp_pred).len() implies is_displacement(
            #[trigger] all.filter(disp_pred)[i],
        ) by {
            all.lemma_filter_pred(disp_pred, i);
        }
        lemma_sorted_displacements(all.filter(disp_pred));
    }
    let mut displaced = displaced;
    let ghost mut d: int = 0;
    assert(disp_sorted.take(0) =~= Seq::<PendingEffect<S, P>>::empty());
    assert(pending_rows@ =~= Seq::<P>::empty());
    while displaced.len() > 0
        invariant
            0 <= d <= disp_sorted.len(),
            displaced@ =~= disp_sorted.skip(d),
            newer@ == newer_view,
            forall|pv: ProvenanceView|
                (exists|j: int| 0 <= j < attached@.len() && same_named((#[trigger] attached@[j])@, pv))
                    <==> superseded(all, pv),
            forall|j: int| 0 <= j < disp_sorted.len() ==> is_displacement(#[trigger] disp_sorted[j]),
            pending_rows@ == fold_displaced(Seq::<P>::empty(), disp_sorted.take(d), newer_view, all),
        decreases displaced@.len(),
    {
        let e = displaced.remove(0);
        proof {
            assert(e == disp_sorted[d]);
            assert(disp_sorted.take(d + 1).drop_last() =~= disp_sorted.take(d));
        }
        match e {
            PendingEffect::PreCommandDisplacement { pending, .. } => {
                let key = pending.provenance().duplicate();
                let superseded_now = any_same(&attached, &key);
                let newer_has = find_match(&newer, &key).is_some();
                if !superseded_now && !newer_has {
                    upsert_match_set(pending_rows, pending);
                }
            },
            _ => {
                proof {
                    assert(false);
                }
            },
        }
        proof {
            d = d + 1;
        }
    }
    proof {
        assert(disp_sorted.take(d) =~= disp_sorted);
    }
    pending_rows.append(&mut newer);

    // Detached rows, last, unless already named.
    let ghost det_all = detached@;
    let ghost middle = pending_rows@;
    let mut detached = detached;
    let ghost mut q: int = 0;
    assert(det_all.take(0) =~= Seq::<PendingEffect<S, P>>::empty());
    while detached.len() > 0
        invariant
            0 <= q <= det_all.len(),
            detached@ =~= det_all.skip(q),
            det_all == all.filter(det_pred),
            det_pred == detach_effects::<S, P>(),
            forall|pv: ProvenanceView|
                (exists|j: int| 0 <= j < attached@.len() && same_named((#[trigger] attached@[j])@, pv))
                    <==> superseded(all, pv),
            pending_rows@ == fold_detached(middle, det_all.take(q), all),
        decreases detached@.len(),
    {
        let e = detached.remove(0);
        proof {
            assert(e == det_all[q]);
            assert(det_all.take(q + 1).drop_last() =~= det_all.take(q));
            all.lemma_filter_pred(det_pred, q);
        }
        match e {
            PendingEffect::CurrentDetach(pending) => {
                let key = pending.provenance().duplicate();
                let superseded_now = any_same(&attached, &key);
                let already = find_match(pending_rows, &key).is_some();
                if !superseded_now && !already {
                    pending_rows.push(pending);
                }
            },
            _ => {
                proof {
                    assert(false);
                }
            },
        }
        proof {
            q = q + 1;
        }
    }
    proof {
        assert(det_all.take(q) =~= det_all);
    }
}

/// One more fresh effect: the sorted sequence grows by one insertion and
/// stays fresh throughout.
proof fn lemma_fresh_step<S, P>(
    s: Seq<PendingEffect<S, P>>,
    x: PendingEffect<S, P>,
)
    requires
        is_fresh(x),
        forall|i: int| 0 <= i < s.len() ==> is_fresh(#[trigger] s[i]),
    ensures
        sort_by_key(s.push(x), true) == sort_by_key(s, true).insert(
            count_key_le(sort_by_key(s, true), true, effect_key(x, true)) as int,
            x,
        ),
        forall|i: int| 0 <= i < sort_by_key(s.push(x), true).len() ==> is_fresh(
            #[trigger] sort_by_key(s.push(x), true)[i],
        ),
{
    assert(s.push(x).drop_last() =~= s);
    assert forall|i: int| 0 <= i < s.push(x).len() implies is_fresh(#[trigger] s.push(x)[i]) by {
        if i < s.len() {
            assert(s.push(x)[i] == s[i]);
        }
    }
    lemma_sorted_fresh(s.push(x));
}

/// Sorting a sequence of fresh effects keeps only fresh effects.
proof fn lemma_sorted_fresh<S, P>(s: Seq<PendingEffect<S, P>>)
    requires
        forall|i: int| 0 <= i < s.len() ==> is_fresh(#[trigger] s[i]),
    ensures
        forall|i: int| 0 <= i < sort_by_key(s, true).len() ==> is_fresh(#[trigger] sort_by_key(s, true)[i]),
        sort_by_key(s, true).len() == s.len(),
    decreases s.len(),
{
    if s.len() > 0 {
        lemma_sorted_fresh(s.drop_last());
        lemma_count_key_le_bound(sort_by_key(s.drop_last(), true), true, effect_key(s.last(), true));
    }
}

/// Sorting a sequence of displacements keeps only displacements.
proof fn lemma_sorted_displacements<S, P>(s: Seq<PendingEffect<S, P>>)
    requires
        forall|i: int| 0 <= i < s.len() ==> is_displacement(#[trigger] s[i]),
    ensures
        forall|i: int| 0 <= i < sort_by_key(s, false).len() ==> is_displacement(#[trigger] sort_by_key(s, false)[i]),
        sort_by_key(s, false).len() == s.len(),
    decreases s.len(),
{
    if s.len() > 0 {
        lemma_sorted_displacements(s.drop_last());
        lemma_count_key_le_bound(sort_by_key(s.drop_last(), false), false, effect_key(s.last(), false));
    }
}

proof fn lemma_count_key_le_bound<S, P>(t: Seq<PendingEffect<S, P>>, fresh: bool, k: int)
    ensures
        count_key_le(t, fresh, k) <= t.len(),
    decreases t.len(),
{
    if t.len() > 0 {
        lemma_count_key_le_bound(t.drop_last(), fresh, k);
    }
}

// ---------------------------------------------------------------------------
// Stable order by dialog position
// ---------------------------------------------------------------------------

/// Number of entries of `t` whose position is at most `o`.
pub open spec fn count_first_le<A>(t: Seq<(usize, A)>, o: usize) -> nat
    decreases t.len(),
{
    if t.len() == 0 {
        0
    } else {
        count_first_le(t.drop_last(), o) + if t.last().0 <= o {
            1nat
        } else {
            0nat
        }
    }
}

/// Stable sort by position: each entry, in order, goes after every entry
/// already placed whose position is at most its own.
pub open spec fn stable_sort_by_first<A>(s: Seq<(usize, A)>) -> Seq<(usize, A)>
    decreases s.len(),
{
    if s.len() == 0 {
        s
    } else {
        let t = stable_sort_by_first(s.drop_last());
        t.insert(count_first_le(t, s.last().0) as int, s.last())
    }
}

// ---------------------------------------------------------------------------
// Recovering pending rows
// ---------------------------------------------------------------------------

/// `rows` with each of `items` upserted in turn.
pub open spec fn upserted_all<P: Attributed>(rows: Seq<P>, items: Seq<P>) -> Seq<P>
    decreases items.len(),
{
    if items.len() == 0 {
        rows
    } else {
        upserted(upserted_all(rows, items.drop_last()), items.last())
    }
}

/// Some provenance of `keys` names the file described by `pv`.
pub open spec fn named_by_any(pv: ProvenanceView, keys: Seq<ProvenanceView>) -> bool {
    exists|k: int| 0 <= k < keys.len() && same_named(pv, #[trigger] keys[k])
}

/// Number of rows of `rows` that a provenance of `keys` names.
pub open spec fn count_named_by<P: Attributed>(rows: Seq<P>, keys: Seq<ProvenanceView>) -> nat
    decreases rows.len(),
{
    if rows.len() == 0 {
        0
    } else {
        count_named_by(rows.drop_last(), keys) + if named_by_any(rows.last().prov(), keys) {
            1nat
        } else {
            0nat
        }
    }
}

/// Counts the rows of `rows` that a provenance of `keys` names.
pub fn count_named<P: Attributed>(rows: &[P], keys: &Vec<Provenance>) -> (r: usize)
    ensures
        r == count_named_by(rows@, keys@.map_values(|k: Provenance| k@)),
{
    let ghost kv = keys@.map_values(|k: Provenance| k@);
    let mut count: usize = 0;
    let mut i: usize = 0;
    while i < rows.len()
        invariant
            i <= rows@.len(),
            kv == keys@.map_values(|k: Provenance| k@),
            count == count_named_by(rows@.take(i as int), kv),
            count <= i,
        decreases rows@.len() - i,
    {
        proof {
            assert(rows@.take(i + 1).drop_last() =~= rows@.take(i as int));
        }
        let hit = any_same(keys, rows[i].provenance());
        proof {
            if hit {
                let j = choose|j: int| 0 <= j < keys@.len() && same_named((#[trigger] keys@[j])@, rows@[i as int].prov());
                assert(same_named(rows@[i as int].prov(), kv[j]));
            } else {
                assert forall|k: int| 0 <= k < kv.len() implies !same_named(rows@[i as int].prov(), #[trigger] kv[k]) by {
                    assert(!same_named(keys@[k]@, rows@[i as int].prov()));
                }
            }
        }
        if hit {
            count = count + 1;
        }
        i = i + 1;
    }
    proof {
        assert(rows@.take(i as int) =~= rows@);
    }
    count
}

// ---------------------------------------------------------------------------
// Sequence facts
// ---------------------------------------------------------------------------

/// Adds `op` to the group of row `r`, or opens that group last.
pub open spec fn add_to_group<X>(g: Seq<(int, Seq<X>)>, r: int, op: X) -> Seq<(int, Seq<X>)> {
    if exists|k: int| 0 <= k < g.len() && (#[trigger] g[k]).0 == r {
        let k = choose|k: int| 0 <= k < g.len() && (#[trigger] g[k]).0 == r;
        g.update(k, (r, g[k].1.push(op)))
    } else {
        g.push((r, seq![op]))
    }
}

pub proof fn lemma_prefix_trans<A>(a: Seq<A>, b: Seq<A>, c: Seq<A>)
    requires
        a.is_prefix_of(b),
        b.is_prefix_of(c),
    ensures
        a.is_prefix_of(c),
{
    assert(a =~= c.subrange(0, a.len() as int));
}

pub proof fn lemma_prefix_append<A>(a: Seq<A>, b: Seq<A>, c: Seq<A>)
    requires
        b.is_prefix_of(c),
    ensures
        (a + b).is_prefix_of(a + c),
{
    assert(a + b =~= (a + c).subrange(0, (a + b).len() as int));
}

pub proof fn lemma_take_concat_prefix<A>(p: Seq<A>, x: Seq<A>, y: Seq<A>)
    requires
        x.is_prefix_of(y),
    ensures
        (p + y).take((p.len() + x.len()) as int) == p + x,
{
    assert((p + y).take((p.len() + x.len()) as int) =~= p + x);
}


// ---------------------------------------------------------------------------
// Laws of the pending list
// ---------------------------------------------------------------------------

/// Keeping only the rows that pass `pred` changes nothing when every row does.
proof fn lemma_filter_all<A>(s: Seq<A>, pred: spec_fn(A) -> bool)
    requires
        forall|i: int| 0 <= i < s.len() ==> pred(#[trigger] s[i]),
    ensures
        s.filter(pred) == s,
    decreases s.len(),
{
    reveal(Seq::filter);
    if s.len() > 0 {
        lemma_filter_all(s.drop_last(), pred);
        assert(s.drop_last().push(s.last()) =~= s);
    }
}

/// Filtering twice by the same predicate is filtering once.
proof fn lemma_filter_idempotent<A>(s: Seq<A>, pred: spec_fn(A) -> bool)
    ensures
        s.filter(pred).filter(pred) == s.filter(pred),
{
    assert forall|i: int| 0 <= i < s.filter(pred).len() implies pred(#[trigger] s.filter(pred)[i]) by {
        s.lemma_filter_pred(pred, i);
    }
    lemma_filter_all(s.filter(pred), pred);
}

/// Upserting a row replaces the whole set of rows that name its file: the
/// new row then stands for that file alone, and every row naming another
/// file stays, in its order.
pub proof fn law_upsert_replaces_match_set<P: Attributed>(s: Seq<P>, x: P)
    ensures
        has_match(upserted(s, x), x.prov()),
        forall|j: int|
            0 <= j < upserted(s, x).len() && same_named(#[trigger] upserted(s, x)[j].prov(), x.prov())
                ==> upserted(s, x)[j] == x,
        upserted(s, x).filter(differs::<P>(x.prov())) == s.filter(differs::<P>(x.prov())),
{
    let d = differs::<P>(x.prov());
    let u = upserted(s, x);
    if has_match(s, x.prov()) {
        let i = first_match(s, x.prov());
        let w = choose|k: int| 0 <= k < s.len() && same_named(#[trigger] s[k].prov(), x.prov());
        assert(0 <= i < s.len() && same_named(s[i].prov(), x.prov()) && forall|j: int|
            0 <= j < i ==> !same_named(#[trigger] s[j].prov(), x.prov())) by {
            let pv = x.prov();
            assert(exists|k: int| 0 <= k < s.len() && same_named(#[trigger] s[k].prov(), pv));
            lemma_first_match_exists(s, pv);
        }
        let a = s.take(i);
        let b = s.skip(i).filter(d);
        assert(u == a + seq![x] + b);
        assert(u[i] == x);
        assert forall|j: int|
            0 <= j < u.len() && same_named(#[trigger] u[j].prov(), x.prov()) implies u[j] == x by {
            if j < i {
                assert(u[j] == s[j]);
            } else if j > i {
                assert(u[j] == b[j - i - 1]);
                s.skip(i).lemma_filter_pred(d, j - i - 1);
            }
        }
        assert forall|j: int| 0 <= j < a.len() implies d(#[trigger] a[j]) by {
            assert(a[j] == s[j]);
        }
        lemma_filter_all(a, d);
        lemma_filter_idempotent(s.skip(i), d);
        Seq::filter_distributes_over_add(a + seq![x], b, d);
        Seq::filter_distributes_over_add(a, seq![x], d);
        let e = Seq::<P>::empty();
        assert(seq![x] =~= e.push(x));
        e.lemma_filter_push(x, d);
        assert(e.filter(d) =~= e) by {
            reveal(Seq::filter);
        }
        assert(!d(x));
        assert(seq![x].filter(d) =~= Seq::<P>::empty());
        assert(s =~= a + s.skip(i));
        Seq::filter_distributes_over_add(a, s.skip(i), d);
        assert(u.filter(d) =~= a + b);
    } else {
        assert(u == s.push(x));
        assert(u[s.len() as int] == x);
        assert forall|j: int|
            0 <= j < u.len() && same_named(#[trigger] u[j].prov(), x.prov()) implies u[j] == x by {
            if j < s.len() {
                assert(u[j] == s[j]);
            }
        }
        s.lemma_filter_push(x, d);
    }
}

/// `first_match` picks a matching row with no match before it.
proof fn lemma_first_match_exists<P: Attributed>(s: Seq<P>, pv: ProvenanceView)
    requires
        has_match(s, pv),
    ensures
        0 <= first_match(s, pv) < s.len(),
        same_named(s[first_match(s, pv)].prov(), pv),
        forall|j: int| 0 <= j < first_match(s, pv) ==> !same_named(#[trigger] s[j].prov(), pv),
{
    let w = choose|k: int| 0 <= k < s.len() && same_named(#[trigger] s[k].prov(), pv);
    lemma_least_match(s, pv, w);
}

proof fn lemma_least_match<P: Attributed>(s: Seq<P>, pv: ProvenanceView, w: int)
    requires
        0 <= w < s.len(),
        same_named(s[w].prov(), pv),
    ensures
        exists|i: int|
            0 <= i < s.len() && same_named(s[i].prov(), pv) && forall|j: int|
                0 <= j < i ==> !same_named(#[trigger] s[j].prov(), pv),
    decreases w,
{
    if exists|j: int| 0 <= j < w && same_named(#[trigger] s[j].prov(), pv) {
        let j = choose|j: int| 0 <= j < w && same_named(#[trigger] s[j].prov(), pv);
        lemma_least_match(s, pv, j);
    } else {
        assert(forall|j: int| 0 <= j < w ==> !same_named(#[trigger] s[j].prov(), pv));
    }
}

/// Upserting rows one after another keeps each of them, unless a later one
/// names the same file.
pub proof fn law_upserts_keep_unreplaced_rows<P: Attributed>(rows: Seq<P>, items: Seq<P>, k: int)
    requires
        0 <= k < items.len(),
        forall|j: int|
            k < j < items.len() ==> !same_named(#[trigger] items[j].prov(), items[k].prov()),
    ensures
        upserted_all(rows, items).contains(items[k]),
    decreases items.len(),
{
    let n = items.len();
    let last = items[n - 1];
    let prefix = items.drop_last();
    let x = upserted_all(rows, prefix);
    let u = upserted(x, last);
    law_upsert_replaces_match_set(x, last);
    assert(u == upserted_all(rows, items));
    if k == n - 1 {
        let w = choose|i: int| 0 <= i < u.len() && same_named(#[trigger] u[i].prov(), last.prov());
        assert(u[w] == last);
    } else {
        assert(prefix[k] == items[k]);
        assert forall|j: int| k < j < prefix.len() implies !same_named(
            #[trigger] prefix[j].prov(),
            prefix[k].prov(),
        ) by {
            assert(prefix[j] == items[j]);
        }
        law_upserts_keep_unreplaced_rows(rows, prefix, k);
        let i = choose|i: int| 0 <= i < x.len() && x[i] == items[k];
        let d = differs::<P>(last.prov());
        assert(!same_named(items[n - 1].prov(), items[k].prov()));
        assert(d(x[i]));
        x.lemma_filter_contains(d, i);
        assert(u.filter(d).contains(items[k]));
        u.lemma_filter_contains_rev(d, items[k]);
    }
}

/// Upserting a row, stated position by position: with no row naming its file
/// it goes last; otherwise every row naming its file goes, and it stands at
/// the place of the first of them among the rows that stay.
pub proof fn law_upsert_inserts_at_first_match<P: Attributed>(s: Seq<P>, x: P)
    ensures
        !has_match(s, x.prov()) ==> upserted(s, x) == s.push(x),
        has_match(s, x.prov()) ==> upserted(s, x) == s.filter(differs::<P>(x.prov())).insert(
            first_match(s, x.prov()),
            x,
        ),
{
    if has_match(s, x.prov()) {
        let d = differs::<P>(x.prov());
        let i = first_match(s, x.prov());
        lemma_first_match_exists(s, x.prov());
        let a = s.take(i);
        assert forall|j: int| 0 <= j < a.len() implies d(#[trigger] a[j]) by {
            assert(a[j] == s[j]);
        }
        lemma_filter_all(a, d);
        assert(s =~= a + s.skip(i));
        Seq::filter_distributes_over_add(a, s.skip(i), d);
        let f = s.filter(d);
        assert(f == a + s.skip(i).filter(d));
        assert(upserted(s, x) =~= f.insert(i, x));
    }
}

/// The rows before the first match all stay, so the first match is a place
/// among the rows that stay.
proof fn lemma_first_match_fits<P: Attributed>(s: Seq<P>, pv: ProvenanceView)
    requires
        has_match(s, pv),
    ensures
        first_match(s, pv) <= s.filter(differs::<P>(pv)).len(),
{
    let d = differs::<P>(pv);
    let i = first_match(s, pv);
    lemma_first_match_exists(s, pv);
    let a = s.take(i);
    assert forall|j: int| 0 <= j < a.len() implies d(#[trigger] a[j]) by {
        assert(a[j] == s[j]);
    }
    lemma_filter_all(a, d);
    assert(s =~= a + s.skip(i));
    Seq::filter_distributes_over_add(a, s.skip(i), d);
}

/// No two rows name the same file.
pub open spec fn distinct_files<P: Attributed>(s: Seq<P>) -> bool {
    forall|i: int, j: int| 0 <= i < j < s.len() ==> !same_named(#[trigger] s[i].prov(), #[trigger] s[j].prov())
}

proof fn lemma_filter_keeps_distinct<P: Attributed>(s: Seq<P>, pred: spec_fn(P) -> bool)
    requires
        distinct_files(s),
    ensures
        distinct_files(s.filter(pred)),
    decreases s.len(),
{
    reveal(Seq::filter);
    if s.len() > 0 {
        let t = s.drop_last();
        assert forall|i: int, j: int| 0 <= i < j < t.len() implies !same_named(
            #[trigger] t[i].prov(),
            #[trigger] t[j].prov(),
        ) by {
            assert(t[i] == s[i] && t[j] == s[j]);
        }
        lemma_filter_keeps_distinct(t, pred);
        let f = t.filter(pred);
        if pred(s.last()) {
            let g = f.push(s.last());
            assert(s.filter(pred) == g);
            assert forall|i: int, j: int| 0 <= i < j < g.len() implies !same_named(
                #[trigger] g[i].prov(),
                #[trigger] g[j].prov(),
            ) by {
                if j == f.len() {
                    assert(f.contains(f[i]));
                    t.lemma_filter_contains_rev(pred, f[i]);
                    let m = choose|m: int| 0 <= m < t.len() && t[m] == f[i];
                    assert(s[m] == t[m]);
                    assert(g[j] == s[s.len() - 1]);
                    assert(!same_named(s[m].prov(), s[s.len() - 1].prov()));
                } else {
                    assert(g[i] == f[i] && g[j] == f[j]);
                }
            }
        } else {
            assert(s.filter(pred) == f);
        }
    }
}

/// Upserting a row into rows that name distinct files leaves rows that
/// name distinct files.
pub proof fn law_upsert_keeps_files_distinct<P: Attributed>(s: Seq<P>, x: P)
    requires
        distinct_files(s),
    ensures
        distinct_files(upserted(s, x)),
{
    law_upsert_inserts_at_first_match(s, x);
    let u = upserted(s, x);
    if has_match(s, x.prov()) {
        let d = differs::<P>(x.prov());
        let f = s.filter(d);
        let p = first_match(s, x.prov());
        lemma_first_match_exists(s, x.prov());
        lemma_filter_keeps_distinct(s, d);
        lemma_first_match_fits(s, x.prov());
        assert forall|k: int| 0 <= k < f.len() implies !same_named(#[trigger] f[k].prov(), x.prov()) by {
            s.lemma_filter_pred(d, k);
        }
        assert forall|i: int, j: int| 0 <= i < j < u.len() implies !same_named(
            #[trigger] u[i].prov(),
            #[trigger] u[j].prov(),
        ) by {
            if j < p {
                assert(u[i] == f[i] && u[j] == f[j]);
            } else if j == p {
                assert(u[i] == f[i] && u[j] == x);
            } else if i < p {
                assert(u[i] == f[i] && u[j] == f[j - 1]);
            } else if i == p {
                assert(u[i] == x && u[j] == f[j - 1]);
                assert(!same_named(f[j - 1].prov(), x.prov()));
            } else {
                assert(u[i] == f[i - 1] && u[j] == f[j - 1]);
            }
        }
    } else {
        assert forall|i: int, j: int| 0 <= i < j < u.len() implies !same_named(
            #[trigger] u[i].prov(),
            #[trigger] u[j].prov(),
        ) by {
            assert(u[i] == s[i]);
            if j == s.len() {
                assert(u[j] == x);
            } else {
                assert(u[j] == s[j]);
            }
        }
    }
}

/// Detached rows only ever go after the pending rows already there.
pub proof fn law_detached_rows_go_last<S: Attributed, P: Attributed>(
    rows: Seq<P>,
    ds: Seq<PendingEffect<S, P>>,
    effects: Seq<PendingEffect<S, P>>,
)
    ensures
        rows.is_prefix_of(fold_detached(rows, ds, effects)),
    decreases ds.len(),
{
    if ds.len() == 0 {
        assert(rows =~= rows.subrange(0, rows.len() as int));
    } else {
        law_detached_rows_go_last(rows, ds.drop_last(), effects);
        let prev = fold_detached(rows, ds.drop_last(), effects);
        assert(rows =~= prev.push(effect_pending(ds.last())).subrange(0, rows.len() as int));
    }
}

/// The rows that the fresh effects leave stand together, in their order,
/// right after the displaced rows that return, and before every detached row.
pub proof fn law_newer_rows_stay_together<S: Attributed, P: Attributed>(
    rows: Seq<P>,
    effects: Seq<PendingEffect<S, P>>,
)
    ensures
        ({
            let newer = fold_fresh(rows, sort_by_key(effects.filter(fresh_effects()), true));
            let returned = fold_displaced(
                Seq::<P>::empty(),
                sort_by_key(effects.filter(displacement_effects()), false),
                newer,
                effects,
            );
            pending_after(rows, effects).subrange(
                returned.len() as int,
                (returned.len() + newer.len()) as int,
            ) == newer
        }),
{
    let newer = fold_fresh(rows, sort_by_key(effects.filter(fresh_effects()), true));
    let returned = fold_displaced(
        Seq::<P>::empty(),
        sort_by_key(effects.filter(displacement_effects()), false),
        newer,
        effects,
    );
    let middle = returned + newer;
    law_detached_rows_go_last(middle, effects.filter(detach_effects()), effects);
    let all = pending_after(rows, effects);
    assert(all == fold_detached(middle, effects.filter(detach_effects()), effects));
    assert(middle.is_prefix_of(all));
    assert forall|k: int| 0 <= k < newer.len() implies #[trigger] all.subrange(
        returned.len() as int,
        (returned.len() + newer.len()) as int,
    )[k] == newer[k] by {
        assert(all[returned.len() + k] == all.subrange(0, middle.len() as int)[returned.len() + k]);
        assert(middle[returned.len() + k] == newer[k]);
    }
    assert(all.subrange(returned.len() as int, (returned.len() + newer.len()) as int) =~= newer);
}

/// Sorting by position keeps the entries and puts them in position order.
pub proof fn law_stable_sort_orders_and_keeps<A>(s: Seq<(usize, A)>)
    ensures
        stable_sort_by_first(s).len() == s.len(),
        stable_sort_by_first(s).to_multiset() == s.to_multiset(),
        forall|i: int, j: int|
            0 <= i < j < s.len() ==> (#[trigger] stable_sort_by_first(s)[i]).0
                <= (#[trigger] stable_sort_by_first(s)[j]).0,
    decreases s.len(),
{
    if s.len() > 0 {
        let t = stable_sort_by_first(s.drop_last());
        let x = s.last();
        law_stable_sort_orders_and_keeps(s.drop_last());
        let k = count_first_le(t, x.0) as int;
        lemma_count_first_le_sorted(t, x.0);
        let r = t.insert(k, x);
        assert(r == stable_sort_by_first(s));
        assert(s.drop_last().push(x) =~= s);
        vstd::seq_lib::to_multiset_insert(t, k, x);
        assert(s.to_multiset() =~= s.drop_last().to_multiset().insert(x)) by {
            s.drop_last().to_multiset_ensures();
        }
        assert forall|i: int, j: int| 0 <= i < j < r.len() implies (#[trigger] r[i]).0 <= (#[trigger] r[j]).0 by {
            if j < k {
                assert(r[i] == t[i] && r[j] == t[j]);
            } else if j == k {
                assert(r[i] == t[i]);
            } else if i == k {
                assert(r[j] == t[j - 1]);
            } else if i < k {
                assert(r[i] == t[i] && r[j] == t[j - 1]);
            } else {
                assert(r[i] == t[i - 1] && r[j] == t[j - 1]);
            }
        }
    }
}

/// In a sequence ordered by position, the entries at most `o` are exactly the
/// first `count_first_le(t, o)` ones.
proof fn lemma_count_first_le_sorted<A>(t: Seq<(usize, A)>, o: usize)
    requires
        forall|i: int, j: int| 0 <= i < j < t.len() ==> (#[trigger] t[i]).0 <= (#[trigger] t[j]).0,
    ensures
        0 <= count_first_le(t, o) <= t.len(),
        forall|i: int| 0 <= i < count_first_le(t, o) ==> (#[trigger] t[i]).0 <= o,
        forall|i: int| count_first_le(t, o) <= i < t.len() ==> (#[trigger] t[i]).0 > o,
    decreases t.len(),
{
    if t.len() > 0 {
        let u = t.drop_last();
        assert forall|i: int, j: int| 0 <= i < j < u.len() implies (#[trigger] u[i]).0 <= (#[trigger] u[j]).0 by {
            assert(u[i] == t[i] && u[j] == t[j]);
        }
        lemma_count_first_le_sorted(u, o);
        let c = count_first_le(u, o) as int;
        if t.last().0 <= o {
            if c < u.len() {
                assert(u[c].0 > o);
                assert(t[c] == u[c]);
                assert(t[c].0 <= t[t.len() - 1].0);
            }
            assert forall|i: int| 0 <= i < c + 1 implies (#[trigger] t[i]).0 <= o by {
                if i < c {
                    assert(t[i] == u[i]);
                }
            }
        } else {
            assert forall|i: int| c <= i < t.len() implies (#[trigger] t[i]).0 > o by {
                if i < u.len() {
                    assert(t[i] == u[i]);
                }
            }
            assert forall|i: int| 0 <= i < c implies (#[trigger] t[i]).0 <= o by {
                assert(t[i] == u[i]);
            }
        }
    }
}

// ---------------------------------------------------------------------------
// What a commit keeps of the pending list
// ---------------------------------------------------------------------------

/// The file that an effect speaks of: the attached source of a successful
/// import, else the measurement it carries.
pub open spec fn effect_subject<S: Attributed, P: Attributed>(e: PendingEffect<S, P>) -> ProvenanceView {
    match e {
        PendingEffect::FreshClear { source, .. } => source.prov(),
        _ => effect_pending(e).prov(),
    }
}

/// Some effect of `effects` speaks of the file described by `pv`.
pub open spec fn touched<S: Attributed, P: Attributed>(effects: Seq<PendingEffect<S, P>>, pv: ProvenanceView) -> bool {
    exists|i: int| 0 <= i < effects.len() && same_named(pv, effect_subject(#[trigger] effects[i]))
}

/// Keeps the rows whose file no effect of `effects` speaks of.
pub open spec fn untouched<S: Attributed, P: Attributed>(effects: Seq<PendingEffect<S, P>>) -> spec_fn(P) -> bool {
    |r: P| !touched(effects, r.prov())
}

/// Narrowing a filter: when `u` implies `d`, filtering by `d` first changes
/// nothing that `u` keeps.
proof fn lemma_filter_narrow<A>(s: Seq<A>, d: spec_fn(A) -> bool, u: spec_fn(A) -> bool)
    requires
        forall|x: A| #[trigger] u(x) ==> d(x),
    ensures
        s.filter(d).filter(u) == s.filter(u),
    decreases s.len(),
{
    reveal(Seq::filter);
    if s.len() > 0 {
        lemma_filter_narrow(s.drop_last(), d, u);
        let x = s.last();
        let f = s.drop_last().filter(d);
        if d(x) {
            f.lemma_filter_push(x, u);
        }
    }
}

/// Inserting an element that `u` drops changes nothing that `u` keeps.
proof fn lemma_insert_dropped<A>(s: Seq<A>, i: int, x: A, u: spec_fn(A) -> bool)
    requires
        0 <= i <= s.len(),
        !u(x),
    ensures
        s.insert(i, x).filter(u) == s.filter(u),
{
    let a = s.take(i);
    let b = s.skip(i);
    assert(s.insert(i, x) =~= a + seq![x] + b);
    assert(s =~= a + b);
    Seq::filter_distributes_over_add(a + seq![x], b, u);
    Seq::filter_distributes_over_add(a, seq![x], u);
    Seq::filter_distributes_over_add(a, b, u);
    let e = Seq::<A>::empty();
    assert(seq![x] =~= e.push(x));
    e.lemma_filter_push(x, u);
    assert(e.filter(u) =~= e) by {
        reveal(Seq::filter);
    }
    assert(seq![x].filter(u) =~= e);
    assert(a.filter(u) + e =~= a.filter(u));
}

/// Upserting a row that `u` drops, where `u` keeps only rows naming other
/// files, changes nothing that `u` keeps.
proof fn lemma_upsert_keeps_filtered<P: Attributed>(s: Seq<P>, x: P, u: spec_fn(P) -> bool)
    requires
        !u(x),
        forall|r: P| #[trigger] u(r) ==> !same_named(r.prov(), x.prov()),
    ensures
        upserted(s, x).filter(u) == s.filter(u),
{
    law_upsert_inserts_at_first_match(s, x);
    if has_match(s, x.prov()) {
        let d = differs::<P>(x.prov());
        let i = first_match(s, x.prov());
        lemma_first_match_exists(s, x.prov());
        lemma_filter_narrow(s, d, u);
        lemma_first_match_fits(s, x.prov());
        lemma_insert_dropped(s.filter(d), i, x, u);
    } else {
        s.lemma_filter_push(x, u);
    }
}

/// An effect of `effects` keeps every untouched row when it acts.
proof fn lemma_member_spares_untouched<S: Attributed, P: Attributed>(
    effects: Seq<PendingEffect<S, P>>,
    e: PendingEffect<S, P>,
)
    requires
        effects.contains(e),
    ensures
        forall|r: P| #[trigger] untouched(effects)(r) ==> !same_named(r.prov(), effect_subject(e)),
{
    let k = choose|k: int| 0 <= k < effects.len() && effects[k] == e;
    assert forall|r: P| #[trigger] untouched(effects)(r) implies !same_named(r.prov(), effect_subject(e)) by {
        if same_named(r.prov(), effect_subject(e)) {
            assert(same_named(r.prov(), effect_subject(effects[k])));
        }
    }
}

/// The measurement an effect of `effects` carries is touched by it.
proof fn lemma_payload_touched<S: Attributed, P: Attributed>(
    effects: Seq<PendingEffect<S, P>>,
    e: PendingEffect<S, P>,
)
    requires
        effects.contains(e),
        !(e is FreshClear),
    ensures
        !untouched(effects)(effect_pending(e)),
{
    let k = choose|k: int| 0 <= k < effects.len() && effects[k] == e;
    assert(same_named(effect_pending(e).prov(), effect_subject(effects[k])));
}

/// Sorting by key keeps only elements of the sequence sorted.
proof fn lemma_sorted_members<S, P>(s: Seq<PendingEffect<S, P>>, fresh: bool)
    ensures
        sort_by_key(s, fresh).len() == s.len(),
        forall|k: int| 0 <= k < sort_by_key(s, fresh).len() ==> s.contains(#[trigger] sort_by_key(s, fresh)[k]),
    decreases s.len(),
{
    if s.len() > 0 {
        let t = sort_by_key(s.drop_last(), fresh);
        lemma_sorted_members(s.drop_last(), fresh);
        let c = count_key_le(t, fresh, effect_key(s.last(), fresh)) as int;
        lemma_count_key_le_bound(t, fresh, effect_key(s.last(), fresh));
        let u = sort_by_key(s, fresh);
        assert(u == t.insert(c, s.last()));
        assert forall|k: int| 0 <= k < u.len() implies s.contains(#[trigger] u[k]) by {
            if k < c {
                assert(u[k] == t[k]);
                let m = choose|m: int| 0 <= m < s.drop_last().len() && s.drop_last()[m] == t[k];
                assert(s[m] == t[k]);
            } else if k == c {
                assert(s[s.len() - 1] == u[k]);
            } else {
                assert(u[k] == t[k - 1]);
                let m = choose|m: int| 0 <= m < s.drop_last().len() && s.drop_last()[m] == t[k - 1];
                assert(s[m] == t[k - 1]);
            }
        }
    }
}

/// Elements of a filtered sequence are elements of the sequence.
proof fn lemma_filter_members<A>(s: Seq<A>, pred: spec_fn(A) -> bool)
    ensures
        forall|k: int| 0 <= k < s.filter(pred).len() ==> s.contains(#[trigger] s.filter(pred)[k]),
{
    assert forall|k: int| 0 <= k < s.filter(pred).len() implies s.contains(#[trigger] s.filter(pred)[k]) by {
        s.lemma_filter_contains_rev(pred, s.filter(pred)[k]);
    }
}

proof fn lemma_fold_fresh_untouched<S: Attributed, P: Attributed>(
    rows: Seq<P>,
    es: Seq<PendingEffect<S, P>>,
    effects: Seq<PendingEffect<S, P>>,
)
    requires
        forall|k: int| 0 <= k < es.len() ==> effects.contains(#[trigger] es[k]),
    ensures
        fold_fresh(rows, es).filter(untouched(effects)) == rows.filter(untouched(effects)),
    decreases es.len(),
{
    if es.len() > 0 {
        let u = untouched(effects);
        let e = es.last();
        assert(effects.contains(es[es.len() - 1]));
        lemma_fold_fresh_untouched(rows, es.drop_last(), effects);
        let f = fold_fresh(rows, es.drop_last());
        lemma_member_spares_untouched(effects, e);
        match e {
            PendingEffect::FreshClear { source, .. } => {
                let d = differs::<P>(source.prov());
                assert forall|x: P| #[trigger] u(x) implies d(x) by {
                    assert(!same_named(x.prov(), effect_subject(e)));
                }
                lemma_filter_narrow(f, d, u);
            },
            PendingEffect::FreshPending { pending, .. } => {
                lemma_payload_touched(effects, e);
                lemma_upsert_keeps_filtered(f, pending, u);
            },
            _ => {},
        }
    }
}

proof fn lemma_fold_displaced_untouched<S: Attributed, P: Attributed>(
    acc: Seq<P>,
    ds: Seq<PendingEffect<S, P>>,
    newer: Seq<P>,
    effects: Seq<PendingEffect<S, P>>,
)
    requires
        forall|k: int| 0 <= k < ds.len() ==> effects.contains(#[trigger] ds[k]),
        forall|k: int| 0 <= k < ds.len() ==> (#[trigger] ds[k]) is PreCommandDisplacement,
    ensures
        fold_displaced(acc, ds, newer, effects).filter(untouched(effects)) == acc.filter(untouched(effects)),
    decreases ds.len(),
{
    if ds.len() > 0 {
        let u = untouched(effects);
        let e = ds.last();
        assert(effects.contains(ds[ds.len() - 1]));
        assert(ds[ds.len() - 1] is PreCommandDisplacement);
        assert forall|k: int| 0 <= k < ds.drop_last().len() implies effects.contains(#[trigger] ds.drop_last()[k]) && ds.drop_last()[k] is PreCommandDisplacement by {
            assert(ds.drop_last()[k] == ds[k]);
        }
        lemma_fold_displaced_untouched(acc, ds.drop_last(), newer, effects);
        let prev = fold_displaced(acc, ds.drop_last(), newer, effects);
        let p = effect_pending(e);
        if !superseded(effects, p.prov()) && !has_match(newer, p.prov()) {
            lemma_member_spares_untouched(effects, e);
            lemma_payload_touched(effects, e);
            lemma_upsert_keeps_filtered(prev, p, u);
        }
    }
}

proof fn lemma_fold_detached_untouched<S: Attributed, P: Attributed>(
    rows: Seq<P>,
    ds: Seq<PendingEffect<S, P>>,
    effects: Seq<PendingEffect<S, P>>,
)
    requires
        forall|k: int| 0 <= k < ds.len() ==> effects.contains(#[trigger] ds[k]),
        forall|k: int| 0 <= k < ds.len() ==> (#[trigger] ds[k]) is CurrentDetach,
    ensures
        fold_detached(rows, ds, effects).filter(untouched(effects)) == rows.filter(untouched(effects)),
    decreases ds.len(),
{
    if ds.len() > 0 {
        let u = untouched(effects);
        let e = ds.last();
        assert(effects.contains(ds[ds.len() - 1]));
        assert(ds[ds.len() - 1] is CurrentDetach);
        assert forall|k: int| 0 <= k < ds.drop_last().len() implies effects.contains(#[trigger] ds.drop_last()[k]) && ds.drop_last()[k] is CurrentDetach by {
            assert(ds.drop_last()[k] == ds[k]);
        }
        lemma_fold_detached_untouched(rows, ds.drop_last(), effects);
        let prev = fold_detached(rows, ds.drop_last(), effects);
        let p = effect_pending(e);
        if !superseded(effects, p.prov()) && !has_match(prev, p.prov()) {
            lemma_payload_touched(effects, e);
            prev.lemma_filter_push(p, u);
        }
    }
}

/// Applying a commit's pending effects keeps every old pending row whose
/// file no effect speaks of, in its order, and adds no other such row: the
/// untouched rows of the result are exactly the untouched rows of the input.
pub proof fn law_pending_keeps_untouched_rows<S: Attributed, P: Attributed>(
    rows: Seq<P>,
    effects: Seq<PendingEffect<S, P>>,
)
    ensures
        pending_after(rows, effects).filter(untouched(effects)) == rows.filter(untouched(effects)),
{
    let u = untouched(effects);
    let fs = effects.filter(fresh_effects());
    let fresh = sort_by_key(fs, true);
    lemma_filter_members(effects, fresh_effects());
    lemma_sorted_members(fs, true);
    assert forall|k: int| 0 <= k < fresh.len() implies effects.contains(#[trigger] fresh[k]) by {
        let m = choose|m: int| 0 <= m < fs.len() && fs[m] == fresh[k];
        assert(effects.contains(fs[m]));
    }
    lemma_fold_fresh_untouched(rows, fresh, effects);
    let newer = fold_fresh(rows, fresh);

    let dp = effects.filter(displacement_effects());
    let displaced = sort_by_key(dp, false);
    lemma_filter_members(effects, displacement_effects());
    lemma_sorted_members(dp, false);
    assert forall|k: int| 0 <= k < dp.len() implies is_displacement(#[trigger] dp[k]) by {
        effects.lemma_filter_pred(displacement_effects(), k);
    }
    lemma_sorted_displacements(dp);
    assert forall|k: int| 0 <= k < displaced.len() implies effects.contains(#[trigger] displaced[k]) && displaced[k] is PreCommandDisplacement by {
        let m = choose|m: int| 0 <= m < dp.len() && dp[m] == displaced[k];
        assert(effects.contains(dp[m]));
        assert(is_displacement(displaced[k]));
    }
    let empty = Seq::<P>::empty();
    lemma_fold_displaced_untouched(empty, displaced, newer, effects);
    let returned = fold_displaced(empty, displaced, newer, effects);
    assert(empty.filter(u) =~= empty) by {
        reveal(Seq::filter);
    }
    Seq::filter_distributes_over_add(returned, newer, u);
    let middle = returned + newer;
    assert(middle.filter(u) =~= newer.filter(u));

    let dt = effects.filter(detach_effects());
    lemma_filter_members(effects, detach_effects());
    assert forall|k: int| 0 <= k < dt.len() implies effects.contains(#[trigger] dt[k]) && dt[k] is CurrentDetach by {
        effects.lemma_filter_pred(detach_effects(), k);
    }
    lemma_fold_detached_untouched(middle, dt, effects);
}

/// Every row of an upsert is the upserted row or a row that was there.
proof fn lemma_upsert_members<P: Attributed>(s: Seq<P>, x: P)
    ensures
        forall|j: int| 0 <= j < upserted(s, x).len() ==> #[trigger] upserted(s, x)[j] == x || s.contains(
            upserted(s, x)[j],
        ),
{
    law_upsert_inserts_at_first_match(s, x);
    let u = upserted(s, x);
    if has_match(s, x.prov()) {
        let d = differs::<P>(x.prov());
        let f = s.filter(d);
        let i = first_match(s, x.prov());
        lemma_first_match_exists(s, x.prov());
        lemma_filter_members(s, d);
        lemma_first_match_fits(s, x.prov());
        assert forall|j: int| 0 <= j < u.len() implies #[trigger] u[j] == x || s.contains(u[j]) by {
            if j < i {
                assert(u[j] == f[j]);
            } else if j > i {
                assert(u[j] == f[j - 1]);
            }
        }
    } else {
        assert forall|j: int| 0 <= j < u.len() implies #[trigger] u[j] == x || s.contains(u[j]) by {
            if j < s.len() {
                assert(u[j] == s[j]);
            }
        }
    }
}

proof fn lemma_fold_fresh_distinct<S: Attributed, P: Attributed>(rows: Seq<P>, es: Seq<PendingEffect<S, P>>)
    requires
        distinct_files(rows),
    ensures
        distinct_files(fold_fresh(rows, es)),
    decreases es.len(),
{
    if es.len() > 0 {
        lemma_fold_fresh_distinct(rows, es.drop_last());
        let f = fold_fresh(rows, es.drop_last());
        match es.last() {
            PendingEffect::FreshClear { source, .. } => {
                lemma_filter_keeps_distinct(f, differs::<P>(source.prov()));
            },
            PendingEffect::FreshPending { pending, .. } => {
                law_upsert_keeps_files_distinct(f, pending);
            },
            _ => {},
        }
    }
}

/// The displaced rows that return name distinct files, none of them named by
/// a newer row.
proof fn lemma_fold_displaced_distinct<S: Attributed, P: Attributed>(
    ds: Seq<PendingEffect<S, P>>,
    newer: Seq<P>,
    effects: Seq<PendingEffect<S, P>>,
)
    ensures
        distinct_files(fold_displaced(Seq::<P>::empty(), ds, newer, effects)),
        forall|k: int|
            0 <= k < fold_displaced(Seq::<P>::empty(), ds, newer, effects).len() ==> !has_match(
                newer,
                (#[trigger] fold_displaced(Seq::<P>::empty(), ds, newer, effects)[k]).prov(),
            ),
    decreases ds.len(),
{
    if ds.len() > 0 {
        lemma_fold_displaced_distinct(ds.drop_last(), newer, effects);
        let prev = fold_displaced(Seq::<P>::empty(), ds.drop_last(), newer, effects);
        let p = effect_pending(ds.last());
        if !superseded(effects, p.prov()) && !has_match(newer, p.prov()) {
            law_upsert_keeps_files_distinct(prev, p);
            lemma_upsert_members(prev, p);
            let u = upserted(prev, p);
            assert forall|k: int| 0 <= k < u.len() implies !has_match(newer, (#[trigger] u[k]).prov()) by {
                if u[k] != p {
                    let m = choose|m: int| 0 <= m < prev.len() && prev[m] == u[k];
                    assert(!has_match(newer, prev[m].prov()));
                }
            }
        }
    }
}

proof fn lemma_fold_detached_distinct<S: Attributed, P: Attributed>(
    rows: Seq<P>,
    ds: Seq<PendingEffect<S, P>>,
    effects: Seq<PendingEffect<S, P>>,
)
    requires
        distinct_files(rows),
    ensures
        distinct_files(fold_detached(rows, ds, effects)),
    decreases ds.len(),
{
    if ds.len() > 0 {
        lemma_fold_detached_distinct(rows, ds.drop_last(), effects);
        let prev = fold_detached(rows, ds.drop_last(), effects);
        let p = effect_pending(ds.last());
        if !superseded(effects, p.prov()) && !has_match(prev, p.prov()) {
            let g = prev.push(p);
            assert forall|i: int, j: int| 0 <= i < j < g.len() implies !same_named(
                #[trigger] g[i].prov(),
                #[trigger] g[j].prov(),
            ) by {
                assert(g[i] == prev[i]);
                if j == prev.len() {
                    assert(g[j] == p);
                    if same_named(prev[i].prov(), p.prov()) {
                        assert(has_match(prev, p.prov()));
                    }
                } else {
                    assert(g[j] == prev[j]);
                }
            }
        }
    }
}

/// Pending rows stay one per file: when no two old pending rows name the
/// same file, no two rows after a commit's effects do.
pub proof fn law_pending_rows_stay_one_per_file<S: Attributed, P: Attributed>(
    rows: Seq<P>,
    effects: Seq<PendingEffect<S, P>>,
)
    requires
        distinct_files(rows),
    ensures
        distinct_files(pending_after(rows, effects)),
{
    let newer = fold_fresh(rows, sort_by_key(effects.filter(fresh_effects()), true));
    lemma_fold_fresh_distinct(rows, sort_by_key(effects.filter(fresh_effects()), true));
    let displaced = sort_by_key(effects.filter(displacement_effects()), false);
    lemma_fold_displaced_distinct(displaced, newer, effects);
    let returned = fold_displaced(Seq::<P>::empty(), displaced, newer, effects);
    let middle = returned + newer;
    let r = returned.len() as int;
    assert forall|i: int, j: int| 0 <= i < j < middle.len() implies !same_named(
        #[trigger] middle[i].prov(),
        #[trigger] middle[j].prov(),
    ) by {
        if j < r {
            assert(middle[i] == returned[i] && middle[j] == returned[j]);
        } else if i >= r {
            assert(middle[i] == newer[i - r] && middle[j] == newer[j - r]);
        } else {
            assert(middle[i] == returned[i] && middle[j] == newer[j - r]);
            assert(!has_match(newer, returned[i].prov()));
            if same_named(returned[i].prov(), newer[j - r].prov()) {
                lemma_same_named_symmetric(returned[i].prov(), newer[j - r].prov());
                assert(same_named(newer[j - r].prov(), returned[i].prov()));
            }
        }
    }
    lemma_fold_detached_distinct(middle, effects.filter(detach_effects()), effects);
}

/// An upsert keeps the upserted row.
proof fn lemma_upsert_contains<P: Attributed>(s: Seq<P>, x: P)
    ensures
        upserted(s, x).contains(x),
{
    law_upsert_inserts_at_first_match(s, x);
    if has_match(s, x.prov()) {
        let i = first_match(s, x.prov());
        lemma_first_match_exists(s, x.prov());
        lemma_first_match_fits(s, x.prov());
        assert(upserted(s, x)[i] == x);
    } else {
        assert(upserted(s, x)[s.len() as int] == x);
    }
}

/// Sorting by key keeps every element of the sequence sorted.
proof fn lemma_sorted_keeps<S, P>(s: Seq<PendingEffect<S, P>>, fresh: bool, e: PendingEffect<S, P>)
    requires
        s.contains(e),
    ensures
        sort_by_key(s, fresh).contains(e),
    decreases s.len(),
{
    let t = sort_by_key(s.drop_last(), fresh);
    let c = count_key_le(t, fresh, effect_key(s.last(), fresh)) as int;
    lemma_count_key_le_bound(t, fresh, effect_key(s.last(), fresh));
    let u = sort_by_key(s, fresh);
    assert(u == t.insert(c, s.last()));
    if e == s.last() {
        assert(u[c] == e);
    } else {
        let m = choose|m: int| 0 <= m < s.len() && s[m] == e;
        assert(m < s.len() - 1);
        assert(s.drop_last()[m] == e);
        lemma_sorted_keeps(s.drop_last(), fresh, e);
        let w = choose|w: int| 0 <= w < t.len() && t[w] == e;
        if w < c {
            assert(u[w] == e);
        } else {
            assert(u[w + 1] == e);
        }
    }
}

/// Along the fresh effects, a row that an effect keeps pending is still
/// there at the end, unless another of the effects names its file.
proof fn lemma_fold_fresh_keeps_pending<S: Attributed, P: Attributed>(
    rows: Seq<P>,
    es: Seq<PendingEffect<S, P>>,
    e: PendingEffect<S, P>,
)
    requires
        es.contains(e),
        e is FreshPending,
    ensures
        fold_fresh(rows, es).contains(effect_pending(e)) || exists|x: PendingEffect<S, P>|
            #[trigger] es.contains(x) && x != e && same_named(effect_subject(x), effect_pending(e).prov()),
    decreases es.len(),
{
    let p = effect_pending(e);
    let last = es.last();
    let prev = fold_fresh(rows, es.drop_last());
    if last == e {
        lemma_upsert_contains(prev, p);
    } else {
        let m = choose|m: int| 0 <= m < es.len() && es[m] == e;
        assert(es.drop_last()[m] == e);
        lemma_fold_fresh_keeps_pending(rows, es.drop_last(), e);
        if exists|x: PendingEffect<S, P>|
            #[trigger] es.drop_last().contains(x) && x != e && same_named(effect_subject(x), p.prov()) {
            let x = choose|x: PendingEffect<S, P>|
                #[trigger] es.drop_last().contains(x) && x != e && same_named(effect_subject(x), p.prov());
            let w = choose|w: int| 0 <= w < es.drop_last().len() && es.drop_last()[w] == x;
            assert(es[w] == x);
            assert(es.contains(x));
        } else if same_named(effect_subject(last), p.prov()) {
            assert(es[es.len() - 1] == last);
            assert(es.contains(last));
        } else {
            let w = choose|w: int| 0 <= w < prev.len() && prev[w] == p;
            lemma_same_named_symmetric(effect_subject(last), p.prov());
            match last {
                PendingEffect::FreshClear { source, .. } => {
                    prev.lemma_filter_contains(differs::<P>(source.prov()), w);
                },
                PendingEffect::FreshPending { pending, .. } => {
                    let d = differs::<P>(pending.prov());
                    law_upsert_replaces_match_set(prev, pending);
                    prev.lemma_filter_contains(d, w);
                    upserted(prev, pending).lemma_filter_contains_rev(d, p);
                },
                _ => {},
            }
        }
    }
}

/// The row that `e` keeps pending is in `after`, or another fresh effect of
/// `effects` names its file.
pub open spec fn kept_or_named_again<S: Attributed, P: Attributed>(
    after: Seq<P>,
    effects: Seq<PendingEffect<S, P>>,
    e: PendingEffect<S, P>,
) -> bool {
    ||| after.contains(effect_pending(e))
    ||| exists|k: int|
        0 <= k < effects.len() && effects[k] != e && is_fresh(effects[k]) && same_named(
            effect_subject(#[trigger] effects[k]),
            effect_pending(e).prov(),
        )
}

/// No file that a commit keeps pending is lost: after the effects apply,
/// the row of every fresh pending effect is in the pending list, unless
/// another fresh effect of the same commit names its file (a later import of
/// that file, or a successful attachment of it).
pub proof fn law_kept_pending_rows_survive<S: Attributed, P: Attributed>(
    rows: Seq<P>,
    effects: Seq<PendingEffect<S, P>>,
    i: int,
)
    requires
        0 <= i < effects.len(),
        effects[i] is FreshPending,
    ensures
        kept_or_named_again(pending_after(rows, effects), effects, effects[i]),
{
    let e = effects[i];
    let p = effect_pending(e);
    let fp = fresh_effects::<S, P>();
    let fs = effects.filter(fp);
    let fresh = sort_by_key(fs, true);
    effects.lemma_filter_contains(fp, i);
    lemma_sorted_keeps(fs, true, e);
    lemma_fold_fresh_keeps_pending(rows, fresh, e);
    let newer = fold_fresh(rows, fresh);
    if newer.contains(p) {
        let returned = fold_displaced(
            Seq::<P>::empty(),
            sort_by_key(effects.filter(displacement_effects()), false),
            newer,
            effects,
        );
        let middle = returned + newer;
        let w = choose|w: int| 0 <= w < newer.len() && newer[w] == p;
        assert(middle[returned.len() + w] == p);
        law_detached_rows_go_last(middle, effects.filter(detach_effects()), effects);
        let all = pending_after(rows, effects);
        assert(all.subrange(0, middle.len() as int)[returned.len() + w] == all[returned.len() + w]);
        assert(all[returned.len() + w] == p);
    } else {
        let x = choose|x: PendingEffect<S, P>|
            #[trigger] fresh.contains(x) && x != e && same_named(effect_subject(x), p.prov());
        lemma_sorted_members(fs, true);
        let w = choose|w: int| 0 <= w < fresh.len() && fresh[w] == x;
        assert(fs.contains(fresh[w]));
        let m = choose|m: int| 0 <= m < fs.len() && fs[m] == x;
        effects.lemma_filter_pred(fp, m);
        effects.lemma_filter_contains_rev(fp, x);
        let k = choose|k: int| 0 <= k < effects.len() && effects[k] == x;
        assert(is_fresh(effects[k]));
    }
}

} // verus!

