//! Same-document session history behind `window.history`: the entry list
//! and current index that `pushState`/`replaceState`/`back`/`forward`/`go`
//! move through. Each entry's `state` is whatever the engine stores for a
//! script's state object.

use vstd::prelude::*;

verus! {

/// Most entries one history holds.
pub const MAX_HISTORY_ENTRIES: usize = 1000;

/// One session-history entry: its state object and its URL (`None` when
/// the entry has no URL recorded).
pub struct HistoryEntry<S> {
    pub state: S,
    pub url: Option<String>,
}

/// Why `pushState` threw.
#[derive(Debug, Clone, Copy, PartialEq, Eq, Structural)]
pub enum HistoryError {
    /// The history already holds 1000 entries.
    LimitExceeded,
}

/// The entry list and the index of the current entry.
pub struct SessionHistory<S> {
    entries: Vec<HistoryEntry<S>>,
    index: usize,
}

/// The abstract state of a history: its entries and current index.
pub struct HistoryView<S> {
    pub entries: Seq<HistoryEntry<S>>,
    pub index: int,
}

/// A history's shape: at least one entry, at most 1000, and the current
/// index inside the list.
pub open spec fn history_wf<S>(h: HistoryView<S>) -> bool {
    &&& 1 <= h.entries.len() <= MAX_HISTORY_ENTRIES
    &&& 0 <= h.index < h.entries.len()
}

/// `pushState`: forward entries are dropped, the new entry follows the
/// current one and becomes current.
pub open spec fn push_spec<S>(h: HistoryView<S>, e: HistoryEntry<S>) -> HistoryView<S> {
    HistoryView { entries: h.entries.take(h.index + 1).push(e), index: h.index + 1 }
}

/// `replaceState`: the current entry is replaced in place.
pub open spec fn replace_spec<S>(h: HistoryView<S>, e: HistoryEntry<S>) -> HistoryView<S> {
    HistoryView { entries: h.entries.update(h.index, e), index: h.index }
}

/// Where `go(delta)` lands, or `None` when it would leave the list or not
/// move at all.
pub open spec fn go_target<S>(h: HistoryView<S>, delta: int) -> Option<int> {
    let t = h.index + delta;
    if t < 0 || t >= h.entries.len() || t == h.index {
        None
    } else {
        Some(t)
    }
}

impl<S> SessionHistory<S> {
    /// The abstract state.
    pub closed spec fn view(&self) -> HistoryView<S> {
        HistoryView { entries: self.entries@, index: self.index as int }
    }

    /// A fresh history: one entry with `initial_state` and no URL.
    pub fn new(initial_state: S) -> (r: SessionHistory<S>)
        ensures
            r.view().entries.len() == 1,
            r.view().entries[0].state == initial_state,
            r.view().entries[0].url == None::<String>,
            r.view().index == 0,
            history_wf(r.view()),
    {
        let mut entries: Vec<HistoryEntry<S>> = Vec::new();
        entries.push(HistoryEntry { state: initial_state, url: None });
        SessionHistory { entries, index: 0 }
    }

    /// `history.length`.
    pub fn len(&self) -> (n: usize)
        ensures
            n == self.view().entries.len(),
    {
        self.entries.len()
    }

    /// The current index.
    pub fn index(&self) -> (i: usize)
        ensures
            i == self.view().index,
    {
        self.index
    }

    /// The entry at `i`.
    pub fn entry(&self, i: usize) -> (e: &HistoryEntry<S>)
        requires
            i < self.view().entries.len(),
        ensures
            *e == self.view().entries[i as int],
    {
        &self.entries[i]
    }

    /// The current entry (whose state `history.state` reads).
    pub fn current(&self) -> (e: &HistoryEntry<S>)
        requires
            history_wf(self.view()),
        ensures
            *e == self.view().entries[self.view().index],
    {
        &self.entries[self.index]
    }

    /// `history.pushState(state, title, url)` with `url` already resolved:
    /// refused when 1000 entries are held, else forward entries are
    /// dropped and the new entry becomes current.
    pub fn push(&mut self, state: S, url: Option<String>) -> (r: Result<(), HistoryError>)
        requires
            history_wf(old(self).view()),
        ensures
            history_wf(final(self).view()),
            old(self).view().entries.len() >= MAX_HISTORY_ENTRIES ==> r == Err::<(), HistoryError>(
                HistoryError::LimitExceeded,
            ) && final(self).view() == old(self).view(),
            old(self).view().entries.len() < MAX_HISTORY_ENTRIES ==> r == Ok::<(), HistoryError>(())
                && final(self).view() == push_spec(old(self).view(), HistoryEntry { state, url }),
    {
        if self.entries.len() >= MAX_HISTORY_ENTRIES {
            return Err(HistoryError::LimitExceeded);
        }
        self.entries.truncate(self.index + 1);
        self.entries.push(HistoryEntry { state, url });
        self.index = self.index + 1;
        Ok(())
    }

    /// `history.replaceState(state, title, url)` with `url` already
    /// resolved.
    pub fn replace(&mut self, state: S, url: Option<String>)
        requires
            history_wf(old(self).view()),
        ensures
            history_wf(final(self).view()),
            final(self).view() == replace_spec(old(self).view(), HistoryEntry { state, url }),
    {
        let i = self.index;
        self.entries.set(i, HistoryEntry { state, url });
    }

    /// `history.go(delta)` (`back` is `-1`, `forward` is `1`): moves the
    /// current index when the target lies inside the list and differs from
    /// it, returning the new index (for the `popstate` that follows);
    /// otherwise nothing changes and `None` is returned.
    pub fn go_by(&mut self, delta: i64) -> (r: Option<usize>)
        requires
            history_wf(old(self).view()),
        ensures
            history_wf(final(self).view()),
            final(self).view().entries == old(self).view().entries,
            match go_target(old(self).view(), delta as int) {
                Some(t) => r == Some(t as usize) && final(self).view().index == t,
                None => r == None::<usize> && final(self).view().index == old(self).view().index,
            },
    {
        let len = self.entries.len();
        let current = self.index;
        if delta < 0 {
            let back: u64 = if delta == i64::MIN {
                9223372036854775808u64
            } else {
                (-delta) as u64
            };
            if back > current as u64 {
                return None;
            }
            if back == 0 {
                return None;
            }
            let target = current - back as usize;
            self.index = target;
            Some(target)
        } else {
            let fwd = delta as u64;
            if fwd == 0 {
                return None;
            }
            if fwd >= (len - current) as u64 {
                return None;
            }
            let target = current + fwd as usize;
            self.index = target;
            Some(target)
        }
    }
}

/// Pushing an entry and then going back returns to the entry that was
/// current before the push, with the entries up to it unchanged.
pub proof fn law_push_then_back<S>(h: HistoryView<S>, e: HistoryEntry<S>)
    requires
        history_wf(h),
        h.entries.len() < MAX_HISTORY_ENTRIES,
    ensures
        go_target(push_spec(h, e), -1) == Some(h.index),
        push_spec(h, e).entries[h.index] == h.entries[h.index],
        push_spec(h, e).entries.len() == h.index + 2,
        push_spec(h, e).entries[h.index + 1] == e,
        history_wf(push_spec(h, e)),
{
}

/// `go(delta)` followed by `go(-delta)` returns to the starting entry when
/// the first call moved; a call that does not move changes nothing.
pub proof fn law_go_round_trip<S>(h: HistoryView<S>, delta: int)
    requires
        history_wf(h),
    ensures
        go_target(h, delta) matches Some(t) ==> go_target(
            HistoryView { entries: h.entries, index: t },
            -delta,
        ) == Some(h.index),
        go_target(h, 0) == None::<int>,
{
}

/// `replaceState` keeps the history's length and current index.
pub proof fn law_replace_keeps_shape<S>(h: HistoryView<S>, e: HistoryEntry<S>)
    requires
        history_wf(h),
    ensures
        replace_spec(h, e).entries.len() == h.entries.len(),
        replace_spec(h, e).index == h.index,
        replace_spec(h, e).entries[h.index] == e,
        history_wf(replace_spec(h, e)),
{
}

} // verus!
