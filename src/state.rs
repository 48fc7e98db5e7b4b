//! The persisted mapping from window id to the fingerprint last seen for it.
use vstd::prelude::*;

verus! {

/// Entries of `(window id, fingerprint)`, in the order they were recorded.
#[derive(Clone, Debug)]
pub struct PersistedState {
    pub windows: Vec<(String, String)>,
}

/// The entries as character sequences.
pub open spec fn entry_views(es: Seq<(String, String)>) -> Seq<(Seq<char>, Seq<char>)> {
    es.map_values(|e: (String, String)| (e.0@, e.1@))
}

/// The fingerprint recorded for `id`: that of its first entry.
pub open spec fn lookup(es: Seq<(Seq<char>, Seq<char>)>, id: Seq<char>) -> Option<Seq<char>>
    decreases es.len(),
{
    if es.len() == 0 {
        None
    } else if es[0].0 == id {
        Some(es[0].1)
    } else {
        lookup(es.drop_first(), id)
    }
}

impl View for PersistedState {
    type V = Seq<(Seq<char>, Seq<char>)>;

    open spec fn view(&self) -> Seq<(Seq<char>, Seq<char>)> {
        entry_views(self.windows@)
    }
}

impl PersistedState {
    /// The state with no entries, as a missing or unreadable state file gives.
    pub fn new() -> (r: PersistedState)
        ensures
            r@ == Seq::<(Seq<char>, Seq<char>)>::empty(),
    {
        let r = PersistedState { windows: Vec::new() };
        assert(r@ =~= Seq::<(Seq<char>, Seq<char>)>::empty());
        r
    }

    /// The state a state file gives: its entries where it could be parsed,
    /// else the empty state.
    pub fn recover(parsed: Option<PersistedState>) -> (r: PersistedState)
        ensures
            parsed matches Some(p) ==> r@ == p@,
            parsed is None ==> r@ == Seq::<(Seq<char>, Seq<char>)>::empty(),
    {
        match parsed {
            Some(p) => p,
            None => PersistedState::new(),
        }
    }

    /// The fingerprint recorded for `id`.
    pub fn get(&self, id: &String) -> (r: Option<String>)
        ensures
            r matches Some(h) ==> lookup(self@, id@) == Some(h@),
            r is None ==> lookup(self@, id@) is None,
    {
        let mut i: usize = 0;
        assert(self@.skip(0) =~= self@);
        while i < self.windows.len()
            invariant
                i <= self.windows.len(),
                lookup(self@, id@) == lookup(self@.skip(i as int), id@),
            decreases self.windows.len() - i,
        {
            let ghost rest = self@.skip(i as int);
            assert(rest[0] == (self.windows@[i as int].0@, self.windows@[i as int].1@));
            if self.windows[i].0 == *id {
                return Some(self.windows[i].1.clone());
            }
            assert(rest.drop_first() =~= self@.skip(i + 1));
            i += 1;
        }
        None
    }

    /// Records `hash` as the fingerprint of `id`, after the entries so far.
    pub fn insert(&mut self, id: String, hash: String)
        ensures
            final(self)@ == old(self)@.push((id@, hash@)),
    {
        let ghost before = self.windows@;
        self.windows.push((id, hash));
        assert(self@ =~= entry_views(before).push((id@, hash@)));
    }
}

} // verus!
