//! A collection of application records keyed by identifier. Identifiers are
//! unique within a map, and inserting a record with an identifier already
//! present replaces the earlier record, so that a later discovery source
//! overwrites an earlier one.

use vstd::prelude::*;
use crate::desktop_entry::DesktopApp;
use crate::text::str_eq;

verus! {

/// The first record in `s` whose identifier reads `id`, if any.
pub open spec fn find_app(s: Seq<DesktopApp>, id: Seq<char>) -> Option<DesktopApp>
    decreases s.len(),
{
    if s.len() == 0 {
        None
    } else if s[0].id@ == id {
        Some(s[0])
    } else {
        find_app(s.drop_first(), id)
    }
}

/// No two records in `s` share an identifier.
pub open spec fn unique_ids(s: Seq<DesktopApp>) -> bool {
    forall|i: int, j: int| 0 <= i < j < s.len() ==> (#[trigger] s[i]).id@ != (#[trigger] s[j]).id@
}

/// When the first `i` records do not carry `id` and the record at `i` does,
/// the search finds exactly that record.
proof fn lemma_find_app_at(s: Seq<DesktopApp>, id: Seq<char>, i: int)
    requires
        0 <= i <= s.len(),
        forall|k: int| 0 <= k < i ==> (#[trigger] s[k]).id@ != id,
        i == s.len() || s[i].id@ == id,
    ensures
        if i == s.len() {
            find_app(s, id) is None
        } else {
            find_app(s, id) == Some(s[i])
        },
    decreases i, s.len(),
{
    if s.len() > 0 && s[0].id@ != id {
        assert forall|k: int| 0 <= k < i - 1 implies (#[trigger] s.drop_first()[k]).id@ != id by {
            assert(s.drop_first()[k] == s[k + 1]);
        }
        lemma_find_app_at(s.drop_first(), id, i - 1);
    }
}

/// Appending a record changes the search only for its own identifier, and
/// only when nothing earlier already carries it.
proof fn lemma_find_app_push(s: Seq<DesktopApp>, app: DesktopApp, id: Seq<char>)
    ensures
        find_app(s.push(app), id) == (if find_app(s, id) is Some {
            find_app(s, id)
        } else if app.id@ == id {
            Some(app)
        } else {
            None
        }),
    decreases s.len(),
{
    if s.len() == 0 {
        assert(s.push(app)[0] == app);
        assert(s.push(app).drop_first() =~= Seq::<DesktopApp>::empty());
    } else {
        assert(s.push(app)[0] == s[0]);
        assert(s.push(app).drop_first() =~= s.drop_first().push(app));
        lemma_find_app_push(s.drop_first(), app, id);
    }
}

/// Replacing the record at `i` by one with the same identifier leaves the
/// search for every other identifier unchanged, and makes the search for
/// that identifier find the replacement when nothing earlier carries it.
proof fn lemma_find_app_update(s: Seq<DesktopApp>, i: int, app: DesktopApp, id: Seq<char>)
    requires
        0 <= i < s.len(),
        s[i].id@ == app.id@,
    ensures
        app.id@ != id ==> find_app(s.update(i, app), id) == find_app(s, id),
        app.id@ == id && (forall|k: int| 0 <= k < i ==> (#[trigger] s[k]).id@ != id)
            ==> find_app(s.update(i, app), id) == Some(app),
    decreases s.len(),
{
    if s.len() > 0 {
        if i == 0 {
            assert(s.update(i, app)[0] == app);
            if app.id@ != id {
                assert(s.update(i, app).drop_first() =~= s.drop_first());
            }
        } else {
            assert(s.update(i, app)[0] == s[0]);
            assert(s.update(i, app).drop_first() =~= s.drop_first().update(i - 1, app));
            assert forall|k: int| 0 <= k < i - 1 && app.id@ == id implies (#[trigger] s.drop_first()[k]).id@
                != id || !(forall|k2: int| 0 <= k2 < i ==> (#[trigger] s[k2]).id@ != id) by {
                assert(s.drop_first()[k] == s[k + 1]);
            }
            lemma_find_app_update(s.drop_first(), i - 1, app, id);
            if app.id@ == id && (forall|k: int| 0 <= k < i ==> (#[trigger] s[k]).id@ != id) {
                assert forall|k: int| 0 <= k < i - 1 implies (#[trigger] s.drop_first()[k]).id@ != id by {
                    assert(s.drop_first()[k] == s[k + 1]);
                }
            }
        }
    }
}

/// Under unique identifiers, the search finds each record under its own
/// identifier.
pub proof fn lemma_find_app_self(s: Seq<DesktopApp>, k: int)
    requires
        unique_ids(s),
        0 <= k < s.len(),
    ensures
        find_app(s, s[k].id@) == Some(s[k]),
{
    lemma_find_app_at(s, s[k].id@, k);
}

/// The application records discovered so far, keyed by identifier.
pub struct AppMap {
    entries: Vec<DesktopApp>,
}

impl View for AppMap {
    type V = Seq<DesktopApp>;

    closed spec fn view(&self) -> Seq<DesktopApp> {
        self.entries@
    }
}

impl AppMap {
    /// A map is well formed when its identifiers are unique.
    pub open spec fn wf(&self) -> bool {
        unique_ids(self@)
    }

    /// An empty map.
    pub fn new() -> (r: Self)
        ensures
            r@ == Seq::<DesktopApp>::empty(),
            r.wf(),
    {
        AppMap { entries: Vec::new() }
    }

    /// How many records the map holds.
    pub fn len(&self) -> (r: usize)
        ensures
            r == self@.len(),
    {
        self.entries.len()
    }

    /// The records, in the order they were first inserted.
    pub fn entries(&self) -> (r: &Vec<DesktopApp>)
        ensures
            r@ == self@,
    {
        &self.entries
    }

    /// The record carrying `id`, if the map holds one.
    pub fn get(&self, id: &str) -> (r: Option<&DesktopApp>)
        ensures
            match r {
                Some(app) => find_app(self@, id@) == Some(*app),
                None => find_app(self@, id@) is None,
            },
    {
        let n = self.entries.len();
        let mut i: usize = 0;
        while i < n
            invariant
                n == self@.len(),
                i <= n,
                self@ == self.entries@,
                forall|k: int| 0 <= k < i ==> (#[trigger] self@[k]).id@ != id@,
            decreases n - i,
        {
            if str_eq(self.entries[i].id.as_str(), id) {
                proof {
                    lemma_find_app_at(self@, id@, i as int);
                }
                return Some(&self.entries[i]);
            }
            i = i + 1;
        }
        proof {
            lemma_find_app_at(self@, id@, n as int);
        }
        None
    }

    /// Puts `app` into the map: a record already carrying the same
    /// identifier is replaced, any other record is untouched.
    pub fn insert(&mut self, app: DesktopApp)
        requires
            old(self).wf(),
        ensures
            final(self).wf(),
            find_app(final(self)@, app.id@) == Some(app),
            forall|id: Seq<char>| id != app.id@ ==> #[trigger] find_app(final(self)@, id)
                == find_app(old(self)@, id),
    {
        let ghost s0 = self@;
        let n = self.entries.len();
        let mut i: usize = 0;
        while i < n
            invariant
                n == self@.len(),
                i <= n,
                self@ == s0,
                s0 == old(self)@,
                unique_ids(s0),
                forall|k: int| 0 <= k < i ==> (#[trigger] self@[k]).id@ != app.id@,
            decreases n - i,
        {
            if str_eq(self.entries[i].id.as_str(), app.id.as_str()) {
                proof {
                    assert(s0[i as int].id@ == app.id@);
                }
                self.entries.set(i, app);
                proof {
                    assert(self@ == s0.update(i as int, app));
                    assert forall|k: int| 0 <= k < self@.len() implies (#[trigger] self@[k]).id@
                        == s0[k].id@ by {}
                    assert forall|a: int, b: int| 0 <= a < b < self@.len() implies (#[trigger] self@[a]).id@
                        != (#[trigger] self@[b]).id@ by {
                        assert(s0[a].id@ != s0[b].id@);
                    }
                    assert forall|id: Seq<char>| id != app.id@ implies #[trigger] find_app(
                        self@,
                        id,
                    ) == find_app(s0, id) by {
                        lemma_find_app_update(s0, i as int, app, id);
                    }
                    lemma_find_app_update(s0, i as int, app, app.id@);
                }
                return ;
            }
            i = i + 1;
        }
        self.entries.push(app);
        proof {
            assert(self@ == s0.push(app));
            assert forall|id: Seq<char>| id != app.id@ implies #[trigger] find_app(self@, id)
                == find_app(s0, id) by {
                lemma_find_app_push(s0, app, id);
            }
            lemma_find_app_at(s0, app.id@, n as int);
            lemma_find_app_push(s0, app, app.id@);
        }
    }

    /// Copies every record of `other` into this map; where both maps carry
    /// an identifier, the record of `other` wins.
    pub fn extend(&mut self, other: &AppMap)
        requires
            old(self).wf(),
            other.wf(),
        ensures
            final(self).wf(),
            forall|id: Seq<char>| #[trigger] find_app(final(self)@, id) == (if find_app(
                other@,
                id,
            ) is Some {
                find_app(other@, id)
            } else {
                find_app(old(self)@, id)
            }),
    {
        let ghost s0 = self@;
        let src = other.entries();
        let n = src.len();
        let mut i: usize = 0;
        proof {
            assert(other@.take(0) =~= Seq::<DesktopApp>::empty());
        }
        while i < n
            invariant
                n == other@.len(),
                i <= n,
                src@ == other@,
                self.wf(),
                unique_ids(other@),
                forall|id: Seq<char>| #[trigger] find_app(self@, id) == (if find_app(
                    other@.take(i as int),
                    id,
                ) is Some {
                    find_app(other@.take(i as int), id)
                } else {
                    find_app(s0, id)
                }),
            decreases n - i,
        {
            let app = src[i].duplicate();
            let ghost before = self@;
            self.insert(app);
            proof {
                let prev = other@.take(i as int);
                let cur = other@.take(i + 1);
                assert(cur =~= prev.push(other@[i as int]));
                assert forall|k: int| 0 <= k < prev.len() implies (#[trigger] prev[k]).id@
                    != app.id@ by {
                    assert(prev[k] == other@[k]);
                }
                lemma_find_app_at(prev, app.id@, i as int);
                assert forall|id: Seq<char>| #[trigger] find_app(self@, id) == (if find_app(
                    cur,
                    id,
                ) is Some {
                    find_app(cur, id)
                } else {
                    find_app(s0, id)
                }) by {
                    lemma_find_app_push(prev, other@[i as int], id);
                    if id != app.id@ {
                        assert(find_app(self@, id) == find_app(before, id));
                    }
                }
            }
            i = i + 1;
        }
        proof {
            assert(other@.take(n as int) =~= other@);
        }
    }
}

} // verus!
