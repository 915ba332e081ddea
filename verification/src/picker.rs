use crate::filter::{
    chars_to_string, contains_chars, filter_idx, lemma_filter_idx_props, lower_of, lower_str,
    query_matches,
};
use crate::snippet::{commands_of, Snippet};
use crate::store::{without_id, Store, StoreError};
use vstd::prelude::*;

verus! {

/// One input event of the picker.
pub enum Key {
    /// An ordinary typed character; `j` and `k` navigate instead while the
    /// query is empty.
    Char(char),
    /// Remove the last query character; a no-op on an empty query.
    Backspace,
    /// Move the highlight up.
    Up,
    /// Move the highlight down.
    Down,
    /// Commit the highlighted snippet.
    Enter,
    /// Delete the highlighted snippet from the store and the session.
    DeleteCurrent,
    /// Leave the picker with no selection.
    Cancel,
    /// Any key the picker ignores.
    Other,
}

/// The terminal outcome of one step: keep looping, or leave with or without
/// a chosen snippet.
pub enum Outcome {
    Continue,
    Selected(Snippet),
    Cancelled,
}

/// A sequence of indices as mathematical integers.
pub open spec fn as_ints(v: Seq<usize>) -> Seq<int> {
    v.map_values(|u: usize| u as int)
}

/// The picker session state: the working snippet list, the query, and the
/// position selected inside the filtered view.
pub struct State {
    pub snippets: Vec<Snippet>,
    pub query: Vec<char>,
    pub selected: usize,
}

impl State {
    /// The indices of the snippets the current query lets through.
    pub open spec fn f_indices(&self) -> Seq<int> {
        filter_idx(commands_of(self.snippets@), self.query@)
    }

    /// The selection invariant: `selected` stays inside the filtered view,
    /// and rests at zero while the view is empty.
    pub open spec fn inv(&self) -> bool {
        if self.f_indices().len() == 0 {
            self.selected == 0
        } else {
            (self.selected as int) < self.f_indices().len()
        }
    }

    /// The position in `snippets` of the highlighted entry.
    pub open spec fn cur_index(&self) -> int {
        self.f_indices()[self.selected as int]
    }

    /// The store id of the highlighted entry.
    pub open spec fn cur_id(&self) -> int {
        self.snippets@[self.cur_index()].id as int
    }

    /// The selection after moving down one entry: it never leaves the
    /// filtered view.
    pub open spec fn nav_down(&self) -> int {
        if self.f_indices().len() > 0 && self.selected + 1 < self.f_indices().len() {
            self.selected + 1
        } else {
            self.selected as int
        }
    }

    /// The selection after moving up one entry: it never passes the top.
    pub open spec fn nav_up(&self) -> int {
        if self.selected > 0 {
            self.selected - 1
        } else {
            0
        }
    }

    /// The selection clamped into a view of `flen` entries.
    pub open spec fn clamped(sel: int, flen: int) -> int {
        if flen == 0 {
            0
        } else if sel >= flen {
            flen - 1
        } else {
            sel
        }
    }

    /// Starts a session over these snippets with an empty query.
    pub fn new(snippets: Vec<Snippet>) -> (s: State)
        ensures
            s.snippets == snippets,
            s.query@ == Seq::<char>::empty(),
            s.selected == 0,
            s.inv(),
    {
        State { snippets, query: Vec::new(), selected: 0 }
    }

    /// Recomputes from scratch the indices of the snippets whose command
    /// contains the query as a case-insensitive substring, in order.
    pub fn filtered(&self) -> (r: Vec<usize>)
        ensures
            as_ints(r@) == self.f_indices(),
    {
        let qs = chars_to_string(&self.query);
        let ql = lower_str(qs.as_str());
        let mut r: Vec<usize> = Vec::new();
        let mut i: usize = 0;
        proof {
            assert(commands_of(self.snippets@).take(0) =~= Seq::<Seq<char>>::empty());
            assert(as_ints(r@) =~= filter_idx(commands_of(self.snippets@).take(0), self.query@));
        }
        while i < self.snippets.len()
            invariant
                i <= self.snippets@.len(),
                ql@ == lower_of(self.query@),
                as_ints(r@) == filter_idx(
                    commands_of(self.snippets@).take(i as int),
                    self.query@,
                ),
            decreases self.snippets@.len() - i,
        {
            let cl = lower_str(self.snippets[i].command.as_str());
            let m = contains_chars(&cl, &ql);
            proof {
                let cs = commands_of(self.snippets@);
                assert(cs.take(i as int + 1).drop_last() =~= cs.take(i as int));
                assert(cs.take(i as int + 1).last() == cs[i as int]);
                assert(m == query_matches(cs[i as int], self.query@));
            }
            if m {
                let ghost r_pre = r@;
                r.push(i);
                proof {
                    assert(as_ints(r@) =~= as_ints(r_pre).push(i as int));
                }
            }
            i += 1;
        }
        proof {
            assert(commands_of(self.snippets@).take(self.snippets@.len() as int) =~= commands_of(
                self.snippets@,
            ));
        }
        r
    }

    /// Clamps the selection back into the current filtered view; every
    /// mutation of the session is followed by such a clamp.
    pub fn clamp(&mut self, filtered_len: usize)
        ensures
            final (self).snippets == old(self).snippets,
            final (self).query == old(self).query,
            final (self).selected as int == State::clamped(
                old(self).selected as int,
                filtered_len as int,
            ),
    {
        if filtered_len == 0 {
            self.selected = 0;
        } else if self.selected >= filtered_len {
            self.selected = filtered_len - 1;
        }
    }

    /// Applies one input event: routes it by its kind — `j` and `k` count
    /// as navigation only while the query is empty — mutates the session,
    /// and re-establishes the selection invariant. Deleting the highlighted
    /// snippet also removes its row from the store; a store failure there is
    /// surfaced and leaves the session untouched.
    pub fn step(&mut self, store: &mut Store, key: Key) -> (r: Result<Outcome, StoreError>)
        requires
            old(self).inv(),
            old(store).inv(),
        ensures
            final (store).inv(),
            final (self).inv(),
            r matches Err(e) ==> (*final (self) == *old(self) && final (store).rows() == old(
                store,
            ).rows() && key is DeleteCurrent && (e is NotFound || e is Sql)),
            key is Cancel ==> (r matches Ok(o) && o is Cancelled && *final (self) == *old(self)
                && final (store).rows() == old(store).rows()),
            key is Other ==> (r matches Ok(o) && o is Continue && *final (self) == *old(self)
                && final (store).rows() == old(store).rows()),
            key is Up ==> (r matches Ok(o) && o is Continue && final (self).snippets == old(
                self,
            ).snippets && final (self).query == old(self).query && final (self).selected as int
                == old(self).nav_up() && final (store).rows() == old(store).rows()),
            key is Down ==> (r matches Ok(o) && o is Continue && final (self).snippets == old(
                self,
            ).snippets && final (self).query == old(self).query && final (self).selected as int
                == old(self).nav_down() && final (store).rows() == old(store).rows()),
            key matches Key::Char(c) ==> (r matches Ok(o) && o is Continue && final (self).snippets
                == old(self).snippets && final (store).rows() == old(store).rows() && (if old(
                self,
            ).query@.len() == 0 && c == 'j' {
                final (self).query == old(self).query && final (self).selected as int == old(
                    self,
                ).nav_down()
            } else if old(self).query@.len() == 0 && c == 'k' {
                final (self).query == old(self).query && final (self).selected as int == old(
                    self,
                ).nav_up()
            } else {
                final (self).query@ == old(self).query@.push(c) && final (self).selected == 0
            })),
            key is Backspace ==> (r matches Ok(o) && o is Continue && final (self).snippets == old(
                self,
            ).snippets && final (store).rows() == old(store).rows() && final (self).selected == 0
                && final (self).query@ == (if old(self).query@.len() == 0 {
                old(self).query@
            } else {
                old(self).query@.drop_last()
            })),
            key is Enter && old(self).f_indices().len() == 0 ==> (r matches Ok(o) && o is Continue
                && *final (self) == *old(self) && final (store).rows() == old(store).rows()),
            key is Enter && old(self).f_indices().len() > 0 ==> (r matches Ok(o) && o matches
                Outcome::Selected(sn) && sn == old(self).snippets@[old(self).cur_index()] && final (
            self).snippets@ == old(self).snippets@.remove(old(self).cur_index()) && final (
            self).query == old(self).query && final (store).rows() == old(store).rows() && final (
            self).selected as int == State::clamped(
                old(self).selected as int,
                final (self).f_indices().len() as int,
            )),
            key is DeleteCurrent && old(self).f_indices().len() == 0 ==> (r matches Ok(o) && o
                is Continue && *final (self) == *old(self) && final (store).rows() == old(
                store,
            ).rows()),
            key is DeleteCurrent && old(self).f_indices().len() > 0 ==> (final (self).query == old(
                self,
            ).query && (r matches Ok(o) ==> (final (self).snippets@ == old(self).snippets@.remove(
                old(self).cur_index(),
            ) && final (store).rows() == without_id(old(store).rows(), old(self).cur_id()) && (o
                is Cancelled <==> old(self).snippets@.len() == 1) && (o is Continue <==> old(
                self,
            ).snippets@.len() != 1) && final (self).selected as int == State::clamped(
                old(self).selected as int,
                final (self).f_indices().len() as int,
            )))),
    {
        let f = self.filtered();
        let flen = f.len();
        proof {
            lemma_filter_idx_props(commands_of(self.snippets@), self.query@);
        }
        match key {
            Key::Cancel => Ok(Outcome::Cancelled),
            Key::Other => Ok(Outcome::Continue),
            Key::Up => {
                if self.selected > 0 {
                    self.selected = self.selected - 1;
                }
                Ok(Outcome::Continue)
            },
            Key::Down => {
                if self.selected + 1 < flen {
                    self.selected = self.selected + 1;
                }
                Ok(Outcome::Continue)
            },
            Key::Char(c) => {
                if self.query.len() == 0 && c == 'j' {
                    if self.selected + 1 < flen {
                        self.selected = self.selected + 1;
                    }
                } else if self.query.len() == 0 && c == 'k' {
                    if self.selected > 0 {
                        self.selected = self.selected - 1;
                    }
                } else {
                    self.query.push(c);
                    self.selected = 0;
                }
                Ok(Outcome::Continue)
            },
            Key::Backspace => {
                self.query.pop();
                self.selected = 0;
                Ok(Outcome::Continue)
            },
            Key::Enter => {
                if flen == 0 {
                    Ok(Outcome::Continue)
                } else {
                    let orig = f[self.selected];
                    proof {
                        assert(as_ints(f@)[self.selected as int] == orig as int);
                        assert(orig as int == old(self).cur_index());
                    }
                    let sn = self.snippets.remove(orig);
                    let f2 = self.filtered();
                    let l2 = f2.len();
                    self.clamp(l2);
                    Ok(Outcome::Selected(sn))
                }
            },
            Key::DeleteCurrent => {
                if flen == 0 {
                    Ok(Outcome::Continue)
                } else {
                    let orig = f[self.selected];
                    proof {
                        assert(as_ints(f@)[self.selected as int] == orig as int);
                        assert(orig as int == old(self).cur_index());
                    }
                    let id = self.snippets[orig].id;
                    match store.delete(id) {
                        Ok(()) => {
                            self.snippets.remove(orig);
                            let f2 = self.filtered();
                            let l2 = f2.len();
                            self.clamp(l2);
                            if self.snippets.len() == 0 {
                                Ok(Outcome::Cancelled)
                            } else {
                                Ok(Outcome::Continue)
                            }
                        },
                        Err(e) => Err(e),
                    }
                }
            },
        }
    }
}

} // verus!
