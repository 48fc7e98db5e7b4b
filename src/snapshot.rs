//! One snapshot run: per-window change decisions against the previous
//! fingerprints, the fingerprints to persist, and the assembled result.
use crate::ocr::{Geometry, TextElement};
use crate::state::{lookup, PersistedState};
use vstd::prelude::*;

verus! {

/// What one run learned of one enumerated window.
#[derive(Debug)]
pub struct WindowRecord {
    pub id: String,
    pub title: String,
    pub geometry: Geometry,
    pub ocr_text: String,
    pub elements: Vec<TextElement>,
    pub changed: bool,
}

/// The structured result of a run.
#[derive(Debug)]
pub struct SnapshotResult {
    pub timestamp: String,
    pub desktop_size: [u32; 2],
    pub focused_window: String,
    pub windows: Vec<WindowRecord>,
    pub changes_since_last: Vec<String>,
}

/// A window as observed: its id and, where its capture succeeded, the
/// fingerprint of the capture.
pub type Observation = (Seq<char>, Option<Seq<char>>);

pub open spec fn opt_view(o: Option<String>) -> Option<Seq<char>> {
    match o {
        Some(s) => Some(s@),
        None => None,
    }
}

pub open spec fn string_views(v: Seq<String>) -> Seq<Seq<char>> {
    v.map_values(|s: String| s@)
}

/// A window counts as changed when its capture failed or its fingerprint
/// differs from the one recorded for its id (or none was).
pub open spec fn is_changed_spec(
    prev: Seq<(Seq<char>, Seq<char>)>,
    id: Seq<char>,
    fingerprint: Option<Seq<char>>,
) -> bool {
    match fingerprint {
        None => true,
        Some(h) => lookup(prev, id) != Some(h),
    }
}

/// The fingerprints to persist after observing `obs`: one entry per window
/// whose capture succeeded, in order.
pub open spec fn state_after(obs: Seq<Observation>) -> Seq<(Seq<char>, Seq<char>)>
    decreases obs.len(),
{
    if obs.len() == 0 {
        seq![]
    } else {
        let p = state_after(obs.drop_last());
        match obs.last().1 {
            Some(h) => p.push((obs.last().0, h)),
            None => p,
        }
    }
}

/// The ids of the changed windows among `obs`, in order.
pub open spec fn changes_after(prev: Seq<(Seq<char>, Seq<char>)>, obs: Seq<Observation>) -> Seq<
    Seq<char>,
>
    decreases obs.len(),
{
    if obs.len() == 0 {
        seq![]
    } else {
        let p = changes_after(prev, obs.drop_last());
        if is_changed_spec(prev, obs.last().0, obs.last().1) {
            p.push(obs.last().0)
        } else {
            p
        }
    }
}

/// The records whose window changed, in order.
pub open spec fn keep_changed(rs: Seq<WindowRecord>) -> Seq<WindowRecord>
    decreases rs.len(),
{
    if rs.len() == 0 {
        seq![]
    } else {
        let p = keep_changed(rs.drop_last());
        if rs.last().changed {
            p.push(rs.last())
        } else {
            p
        }
    }
}

/// A run in progress: the fingerprints of the previous run, those gathered
/// for the next one, the records and changed ids so far, and (for proofs
/// only) the observations made so far.
pub struct Snapshot {
    pub previous: PersistedState,
    pub next: PersistedState,
    pub records: Vec<WindowRecord>,
    pub changes: Vec<String>,
    pub observed: Ghost<Seq<Observation>>,
}

impl Snapshot {
    /// The run's records follow its observations one for one; a record is
    /// changed exactly as the previous fingerprints decide, and an unchanged
    /// one carries no text; the changes and the next fingerprints are those
    /// of the observations.
    pub open spec fn wf(&self) -> bool {
        let obs = self.observed@;
        &&& self.next@ == state_after(obs)
        &&& string_views(self.changes@) == changes_after(self.previous@, obs)
        &&& self.records@.len() == obs.len()
        &&& forall|i: int|
            0 <= i < obs.len() ==> {
                let r = #[trigger] self.records@[i];
                &&& r.id@ == obs[i].0
                &&& r.changed == is_changed_spec(self.previous@, obs[i].0, obs[i].1)
                &&& (!r.changed ==> r.ocr_text@.len() == 0 && r.elements@.len() == 0)
            }
    }

    /// Starts a run against the fingerprints of the previous one.
    pub fn new(previous: PersistedState) -> (r: Snapshot)
        ensures
            r.wf(),
            r.previous == previous,
            r.observed@ == Seq::<Observation>::empty(),
    {
        let r = Snapshot {
            previous,
            next: PersistedState::new(),
            records: Vec::new(),
            changes: Vec::new(),
            observed: Ghost(Seq::empty()),
        };
        assert(string_views(r.changes@) =~= Seq::<Seq<char>>::empty());
        r
    }

    /// Whether the window is changed, given the fingerprint of its capture
    /// (`None` where the capture failed).
    pub fn is_changed(&self, id: &String, fingerprint: &Option<String>) -> (r: bool)
        ensures
            r == is_changed_spec(self.previous@, id@, opt_view(*fingerprint)),
    {
        match fingerprint {
            None => true,
            Some(h) => match self.previous.get(id) {
                Some(p) => p != *h,
                None => true,
            },
        }
    }

    /// Whether text recognition is to run on the window's capture: it was
    /// captured and it changed.
    pub fn needs_text(&self, id: &String, fingerprint: &Option<String>) -> (r: bool)
        ensures
            r == (fingerprint is Some && is_changed_spec(
                self.previous@,
                id@,
                opt_view(*fingerprint),
            )),
    {
        fingerprint.is_some() && self.is_changed(id, fingerprint)
    }

    /// Records one window in listing order, with the fingerprint of its
    /// capture and the text recognised in it. The text is kept only where the
    /// window changed.
    pub fn add_window(
        &mut self,
        id: String,
        title: String,
        geometry: Geometry,
        fingerprint: Option<String>,
        ocr_text: String,
        elements: Vec<TextElement>,
    )
        requires
            old(self).wf(),
        ensures
            final(self).wf(),
            final(self).previous == old(self).previous,
            final(self).observed@ == old(self).observed@.push((id@, opt_view(fingerprint))),
            final(self).records@.drop_last() == old(self).records@,
            ({
                let r = final(self).records@.last();
                let changed = is_changed_spec(old(self).previous@, id@, opt_view(fingerprint));
                &&& r.id@ == id@
                &&& r.title@ == title@
                &&& r.geometry == geometry
                &&& r.changed == changed
                &&& (changed ==> r.ocr_text@ == ocr_text@ && r.elements@ == elements@)
                &&& (!changed ==> r.ocr_text@.len() == 0 && r.elements@.len() == 0)
            }),
    {
        let ghost obs = self.observed@.push((id@, opt_view(fingerprint)));
        let changed = self.is_changed(&id, &fingerprint);
        let ghost old_changes = self.changes@;
        let ghost old_records = self.records@;
        if changed {
            self.changes.push(id.clone());
        }
        match fingerprint {
            Some(h) => {
                self.next.insert(id.clone(), h);
            },
            None => {},
        }
        let (text, elems) = if changed {
            (ocr_text, elements)
        } else {
            (String::new(), Vec::new())
        };
        let record = WindowRecord { id, title, geometry, ocr_text: text, elements: elems, changed };
        self.records.push(record);
        self.observed = Ghost(obs);
        proof {
            assert(obs.drop_last() =~= old(self).observed@);
            assert(string_views(self.changes@) =~= changes_after(self.previous@, obs));
            assert forall|i: int| 0 <= i < obs.len() implies {
                let r = #[trigger] self.records@[i];
                &&& r.id@ == obs[i].0
                &&& r.changed == is_changed_spec(self.previous@, obs[i].0, obs[i].1)
                &&& (!r.changed ==> r.ocr_text@.len() == 0 && r.elements@.len() == 0)
            } by {
                if i < obs.len() - 1 {
                    assert(self.records@[i] == old_records[i]);
                    assert(old(self).records@[i] == old_records[i]);
                }
            }
            assert(self.records@.drop_last() =~= old(self).records@);
        }
    }

    /// Ends the run: the result, its window list reduced to the changed
    /// windows where `changes_only` is set, and the fingerprints to persist.
    pub fn finish(
        self,
        timestamp: String,
        desktop_size: [u32; 2],
        focused_window: String,
        changes_only: bool,
    ) -> (r: (SnapshotResult, PersistedState))
        requires
            self.wf(),
        ensures
            r.0.timestamp == timestamp,
            r.0.desktop_size == desktop_size,
            r.0.focused_window == focused_window,
            string_views(r.0.changes_since_last@) == changes_after(self.previous@, self.observed@),
            r.0.windows@ == (if changes_only {
                keep_changed(self.records@)
            } else {
                self.records@
            }),
            r.1@ == state_after(self.observed@),
    {
        let windows = if changes_only {
            only_changed(self.records)
        } else {
            self.records
        };
        (
            SnapshotResult {
                timestamp,
                desktop_size,
                focused_window,
                windows,
                changes_since_last: self.changes,
            },
            self.next,
        )
    }
}

/// The records whose window changed, in order.
pub fn only_changed(records: Vec<WindowRecord>) -> (r: Vec<WindowRecord>)
    ensures
        r@ == keep_changed(records@),
{
    let ghost orig = records@;
    assert(orig.len() == records.len());
    let mut rest = records;
    let mut out: Vec<WindowRecord> = Vec::new();
    let mut k: usize = 0;
    proof {
        assert(orig.take(0) =~= Seq::<WindowRecord>::empty());
        assert(orig.skip(0) =~= orig);
    }
    while rest.len() > 0
        invariant
            k <= orig.len() <= usize::MAX,
            rest@ == orig.skip(k as int),
            out@ == keep_changed(orig.take(k as int)),
        decreases rest.len(),
    {
        assert(rest@.len() == orig.len() - k);
        let r = rest.remove(0);
        proof {
            assert(orig.take(k + 1).drop_last() =~= orig.take(k as int));
            assert(orig.take(k + 1).last() == r);
            assert(rest@ =~= orig.skip(k + 1));
        }
        if r.changed {
            out.push(r);
        }
        k += 1;
    }
    proof {
        assert(orig.take(k as int) =~= orig);
    }
    out
}

/// The ids of the records, in order.
pub open spec fn record_ids(rs: Seq<WindowRecord>) -> Seq<Seq<char>> {
    rs.map_values(|r: WindowRecord| r.id@)
}

/// The observations name distinct windows.
pub open spec fn distinct_ids(obs: Seq<Observation>) -> bool {
    forall|i: int, j: int| 0 <= i < j < obs.len() ==> obs[i].0 != obs[j].0
}

/// Every window of the observations was captured.
pub open spec fn all_captured(obs: Seq<Observation>) -> bool {
    forall|i: int| 0 <= i < obs.len() ==> (#[trigger] obs[i]).1 is Some
}

proof fn lemma_state_after_len(obs: Seq<Observation>)
    requires
        all_captured(obs),
    ensures
        state_after(obs).len() == obs.len(),
        forall|i: int|
            0 <= i < obs.len() ==> #[trigger] state_after(obs)[i] == (obs[i].0, obs[i].1->Some_0),
    decreases obs.len(),
{
    if obs.len() > 0 {
        let p = obs.drop_last();
        assert forall|i: int| 0 <= i < p.len() implies (#[trigger] p[i]).1 is Some by {
            assert(p[i] == obs[i]);
        }
        lemma_state_after_len(p);
        assert(obs[obs.len() - 1].1 is Some);
    }
}

proof fn lemma_lookup_distinct(es: Seq<(Seq<char>, Seq<char>)>, i: int)
    requires
        0 <= i < es.len(),
        forall|a: int, b: int| 0 <= a < b < es.len() ==> es[a].0 != es[b].0,
    ensures
        lookup(es, es[i].0) == Some(es[i].1),
    decreases es.len(),
{
    if i > 0 {
        let t = es.drop_first();
        assert(es[0].0 != es[i].0);
        assert(t[i - 1] == es[i]);
        assert forall|a: int, b: int| 0 <= a < b < t.len() implies t[a].0 != t[b].0 by {
            assert(t[a] == es[a + 1] && t[b] == es[b + 1]);
        }
        lemma_lookup_distinct(t, i - 1);
    }
}

proof fn lemma_no_changes(prev: Seq<(Seq<char>, Seq<char>)>, obs: Seq<Observation>)
    requires
        forall|i: int| 0 <= i < obs.len() ==> !is_changed_spec(prev, (#[trigger] obs[i]).0, obs[i].1),
    ensures
        changes_after(prev, obs) == Seq::<Seq<char>>::empty(),
    decreases obs.len(),
{
    if obs.len() > 0 {
        let p = obs.drop_last();
        assert forall|i: int| 0 <= i < p.len() implies !is_changed_spec(prev, (#[trigger] p[i]).0, p[i].1) by {
            assert(p[i] == obs[i]);
        }
        lemma_no_changes(prev, p);
        assert(!is_changed_spec(prev, obs[obs.len() - 1].0, obs[obs.len() - 1].1));
    }
}

/// A second run over an unchanged desktop (the same windows, each captured
/// with the same fingerprint, ids distinct) against the fingerprints the
/// first run persisted finds no window changed.
pub proof fn lemma_rerun_unchanged(obs: Seq<Observation>)
    requires
        all_captured(obs),
        distinct_ids(obs),
    ensures
        forall|i: int|
            0 <= i < obs.len() ==> !is_changed_spec(state_after(obs), (#[trigger] obs[i]).0, obs[i].1),
        changes_after(state_after(obs), obs) == Seq::<Seq<char>>::empty(),
{
    let st = state_after(obs);
    lemma_state_after_len(obs);
    assert forall|i: int| 0 <= i < obs.len() implies !is_changed_spec(st, (#[trigger] obs[i]).0, obs[i].1) by {
        assert forall|a: int, b: int| 0 <= a < b < st.len() implies st[a].0 != st[b].0 by {
            assert(st[a] == (obs[a].0, obs[a].1->Some_0));
            assert(st[b] == (obs[b].0, obs[b].1->Some_0));
        }
        lemma_lookup_distinct(st, i);
        assert(st[i] == (obs[i].0, obs[i].1->Some_0));
    }
    lemma_no_changes(st, obs);
}

/// In such a second run every record is unchanged and carries no text, and
/// the list of changes is empty.
pub proof fn lemma_rerun_records(s: &Snapshot)
    requires
        s.wf(),
        all_captured(s.observed@),
        distinct_ids(s.observed@),
        s.previous@ == state_after(s.observed@),
    ensures
        forall|i: int|
            0 <= i < s.records@.len() ==> !(#[trigger] s.records@[i]).changed
                && s.records@[i].ocr_text@.len() == 0 && s.records@[i].elements@.len() == 0,
        s.changes@.len() == 0,
{
    lemma_rerun_unchanged(s.observed@);
    assert forall|i: int| 0 <= i < s.records@.len() implies !(#[trigger] s.records@[i]).changed
        && s.records@[i].ocr_text@.len() == 0 && s.records@[i].elements@.len() == 0 by {
        assert(!is_changed_spec(s.previous@, s.observed@[i].0, s.observed@[i].1));
    }
    assert(string_views(s.changes@).len() == s.changes@.len());
}

/// Against an empty previous state (as a corrupt or missing state file
/// gives) every observed window is changed, and the changes are all the ids.
pub proof fn lemma_empty_state_all_changed(obs: Seq<Observation>)
    ensures
        forall|i: int|
            0 <= i < obs.len() ==> is_changed_spec(seq![], (#[trigger] obs[i]).0, obs[i].1),
        changes_after(seq![], obs) == obs.map_values(|o: Observation| o.0),
    decreases obs.len(),
{
    if obs.len() > 0 {
        lemma_empty_state_all_changed(obs.drop_last());
        assert(changes_after(seq![], obs) =~= obs.map_values(|o: Observation| o.0));
    }
}

proof fn lemma_keep_changed_ids(
    rs: Seq<WindowRecord>,
    prev: Seq<(Seq<char>, Seq<char>)>,
    obs: Seq<Observation>,
)
    requires
        rs.len() == obs.len(),
        forall|i: int|
            0 <= i < obs.len() ==> (#[trigger] rs[i]).id@ == obs[i].0 && rs[i].changed
                == is_changed_spec(prev, obs[i].0, obs[i].1),
    ensures
        record_ids(keep_changed(rs)) == changes_after(prev, obs),
    decreases rs.len(),
{
    if rs.len() > 0 {
        let (r2, o2) = (rs.drop_last(), obs.drop_last());
        assert forall|i: int| 0 <= i < o2.len() implies (#[trigger] r2[i]).id@ == o2[i].0
            && r2[i].changed == is_changed_spec(prev, o2[i].0, o2[i].1) by {
            assert(r2[i] == rs[i] && o2[i] == obs[i]);
        }
        lemma_keep_changed_ids(r2, prev, o2);
        assert(rs[rs.len() - 1].id@ == obs[obs.len() - 1].0);
        assert(record_ids(keep_changed(rs)) =~= changes_after(prev, obs));
    }
}

proof fn lemma_keep_changed_all_changed(rs: Seq<WindowRecord>)
    ensures
        forall|i: int| 0 <= i < keep_changed(rs).len() ==> (#[trigger] keep_changed(rs)[i]).changed,
        forall|i: int| 0 <= i < rs.len() && (#[trigger] rs[i]).changed ==> keep_changed(rs).contains(rs[i]),
    decreases rs.len(),
{
    if rs.len() > 0 {
        let p = rs.drop_last();
        lemma_keep_changed_all_changed(p);
        assert forall|i: int| 0 <= i < rs.len() && (#[trigger] rs[i]).changed implies keep_changed(rs).contains(rs[i]) by {
            if i < rs.len() - 1 {
                assert(p[i] == rs[i]);
                let k = choose|k: int| 0 <= k < keep_changed(p).len() && keep_changed(p)[k] == p[i];
                assert(keep_changed(rs)[k] == rs[i]);
            } else {
                assert(keep_changed(rs).last() == rs[i]);
            }
        }
    }
}

/// The reduced window list holds exactly the changed records, and their ids,
/// in order, are the run's changes: the changes are the same whether or not
/// the list is reduced.
pub proof fn lemma_filtered_output(s: &Snapshot)
    requires
        s.wf(),
    ensures
        forall|i: int|
            0 <= i < keep_changed(s.records@).len() ==> (#[trigger] keep_changed(s.records@)[i]).changed,
        forall|i: int|
            0 <= i < s.records@.len() && (#[trigger] s.records@[i]).changed ==> keep_changed(
                s.records@,
            ).contains(s.records@[i]),
        record_ids(keep_changed(s.records@)) == string_views(s.changes@),
{
    lemma_keep_changed_all_changed(s.records@);
    assert forall|i: int| 0 <= i < s.observed@.len() implies (#[trigger] s.records@[i]).id@
        == s.observed@[i].0 && s.records@[i].changed == is_changed_spec(
        s.previous@,
        s.observed@[i].0,
        s.observed@[i].1,
    ) by {}
    lemma_keep_changed_ids(s.records@, s.previous@, s.observed@);
}

} // verus!
