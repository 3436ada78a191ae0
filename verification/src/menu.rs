//! The launcher menu: a searchable, ordered list of applications with one
//! selected row. Search filters case-insensitively on name and keywords;
//! keys move the selection over the visible rows; activating a row yields
//! the command to launch.

use vstd::prelude::*;
use vstd::string::*;
use crate::app_map::{find_app, AppMap};
use crate::desktop_entry::DesktopApp;
use crate::text::{lex_le, lower_of, lowercase, str_contains, str_lex_le};
use crate::text::{lemma_lex_le_total, lemma_lex_le_trans};

verus! {

/// One row of the menu: which application it stands for and whether the
/// current search shows it.
pub struct Entry {
    pub visible: bool,
    pub id: String,
}

/// A key the menu reacts to.
#[derive(Debug, Clone)]
pub enum KeyInput {
    ArrowUp,
    ArrowDown,
    Enter,
    Escape,
    Other,
}

/// What the surrounding shell tells the menu.
#[derive(Debug, Clone)]
pub enum Message {
    SearchChanged(String),
    ButtonClicked(String),
    OnSubmit,
    KeyPressed(KeyInput),
}

/// What the menu asks the surrounding shell to do in return.
pub enum Action {
    Idle,
    Launch(DesktopApp),
    Quit,
}

/// Whether the search `query` keeps `app` visible: folded to lower case,
/// the query occurs in the application's name or in its keywords.
pub open spec fn entry_matches(app: DesktopApp, query: Seq<char>) -> bool {
    ||| crate::text::contains_seq(lower_of(app.name@), lower_of(query))
    ||| crate::text::contains_seq(lower_of(app.keywords@), lower_of(query))
}

/// The rows the current search shows, in order.
pub open spec fn visible_entries(es: Seq<Entry>) -> Seq<Entry>
    decreases es.len(),
{
    if es.len() == 0 {
        Seq::empty()
    } else if es[0].visible {
        seq![es[0]] + visible_entries(es.drop_first())
    } else {
        visible_entries(es.drop_first())
    }
}

/// The visible rows of two row lists laid end to end.
proof fn lemma_visible_split(a: Seq<Entry>, b: Seq<Entry>)
    ensures
        visible_entries(a + b) == visible_entries(a) + visible_entries(b),
    decreases a.len(),
{
    if a.len() == 0 {
        assert(a + b =~= b);
        assert(visible_entries(a) + visible_entries(b) =~= visible_entries(b));
    } else {
        assert((a + b)[0] == a[0]);
        assert((a + b).drop_first() =~= a.drop_first() + b);
        lemma_visible_split(a.drop_first(), b);
        if a[0].visible {
            assert(seq![a[0]] + (visible_entries(a.drop_first()) + visible_entries(b)) =~= (seq![
                a[0],
            ] + visible_entries(a.drop_first())) + visible_entries(b));
        }
    }
}

/// One more row extends the visible rows by that row when it is visible.
proof fn lemma_visible_push(s: Seq<Entry>, e: Entry)
    ensures
        visible_entries(s.push(e)) == visible_entries(s) + (if e.visible {
            seq![e]
        } else {
            Seq::<Entry>::empty()
        }),
{
    reveal_with_fuel(visible_entries, 3);
    assert(s.push(e) =~= s + seq![e]);
    lemma_visible_split(s, seq![e]);
    assert(seq![e].drop_first() =~= Seq::<Entry>::empty());
    assert(seq![e][0] == e);
    if e.visible {
        assert(visible_entries(seq![e]) =~= seq![e]);
    } else {
        assert(visible_entries(seq![e]) =~= Seq::<Entry>::empty());
        assert(visible_entries(s) + Seq::<Entry>::empty() =~= visible_entries(s));
    }
}

/// How many rows the current search shows.
fn count_visible(es: &Vec<Entry>) -> (r: usize)
    ensures
        r == visible_entries(es@).len(),
{
    let n = es.len();
    let mut i: usize = 0;
    let mut seen: usize = 0;
    proof {
        assert(es@.take(0) =~= Seq::<Entry>::empty());
    }
    while i < n
        invariant
            i <= n == es@.len(),
            seen <= i,
            seen == visible_entries(es@.take(i as int)).len(),
        decreases n - i,
    {
        proof {
            lemma_visible_push(es@.take(i as int), es@[i as int]);
            assert(es@.take(i + 1) =~= es@.take(i as int).push(es@[i as int]));
        }
        if es[i].visible {
            seen = seen + 1;
        }
        i = i + 1;
    }
    proof {
        assert(es@.take(n as int) =~= es@);
    }
    seen
}

/// Whether `query` keeps `app` visible.
fn matches_query(app: &DesktopApp, query: &str) -> (r: bool)
    ensures
        r == entry_matches(*app, query@),
{
    let lq = lowercase(query);
    let ln = lowercase(app.name.as_str());
    let lk = lowercase(app.keywords.as_str());
    str_contains(ln.as_str(), lq.as_str()) || str_contains(lk.as_str(), lq.as_str())
}

/// Law: the search is case-insensitive. Two queries that fold to the same
/// characters show exactly the same entries.
pub proof fn lemma_search_case_insensitive(app: DesktopApp, q1: Seq<char>, q2: Seq<char>)
    requires
        lower_of(q1) == lower_of(q2),
    ensures
        entry_matches(app, q1) == entry_matches(app, q2),
{
}

/// A working pair of the menu order: the lower-cased name an application
/// sorts under, and its identifier.
pub open spec fn pair_ok(p: (String, String), apps: Seq<DesktopApp>) -> bool {
    &&& find_app(apps, p.1@) is Some
    &&& p.0@ == lower_of(find_app(apps, p.1@)->0.name@)
}

/// Pairs ordered by their lower-cased names.
pub open spec fn pairs_sorted(ps: Seq<(String, String)>) -> bool {
    forall|a: int, b: int| 0 <= a < b < ps.len() ==> lex_le(
        (#[trigger] ps[a]).0@,
        (#[trigger] ps[b]).0@,
    )
}

/// No two pairs carry the same identifier.
pub open spec fn pairs_distinct(ps: Seq<(String, String)>) -> bool {
    forall|a: int, b: int| 0 <= a < b < ps.len() ==> (#[trigger] ps[a]).1@ != (#[trigger] ps[b]).1@
}

/// Whether some pair of `ps` carries the identifier `id`.
pub open spec fn id_in(ps: Seq<(String, String)>, id: Seq<char>) -> bool {
    exists|k2: int| 0 <= k2 < ps.len() && (#[trigger] ps[k2]).1@ == id
}

/// Every identifier of `src` occurs in `dst`.
pub open spec fn ids_covered(src: Seq<(String, String)>, dst: Seq<(String, String)>) -> bool {
    forall|k: int| 0 <= k < src.len() ==> id_in(dst, (#[trigger] src[k]).1@)
}

/// Sorts the pairs by lower-cased name, keeping exactly the given
/// identifiers and their bindings.
fn sort_pairs(input: Vec<(String, String)>, Ghost(apps): Ghost<Seq<DesktopApp>>) -> (r: Vec<
    (String, String),
>)
    requires
        forall|k: int| 0 <= k < input@.len() ==> pair_ok(#[trigger] input@[k], apps),
        pairs_distinct(input@),
    ensures
        r@.len() == input@.len(),
        forall|k: int| 0 <= k < r@.len() ==> pair_ok(#[trigger] r@[k], apps),
        pairs_distinct(r@),
        pairs_sorted(r@),
        ids_covered(input@, r@),
{
    let ghost input0 = input@;
    let mut work = input;
    let mut out: Vec<(String, String)> = Vec::new();
    while work.len() > 0
        invariant
            work@.len() + out@.len() == input0.len(),
            work@ == input0.take(work@.len() as int),
            forall|k: int| 0 <= k < input0.len() ==> pair_ok(#[trigger] input0[k], apps),
            pairs_distinct(input0),
            forall|k: int| 0 <= k < out@.len() ==> pair_ok(#[trigger] out@[k], apps),
            pairs_distinct(out@),
            pairs_sorted(out@),
            forall|a: int, b: int|
                0 <= a < out@.len() && 0 <= b < work@.len() ==> (#[trigger] out@[a]).1@ != (
                #[trigger] work@[b]).1@,
            forall|k: int| work@.len() <= k < input0.len() ==> id_in(
                out@,
                (#[trigger] input0[k]).1@,
            ),
        decreases work@.len(),
    {
        let ghost wlen = work@.len() as int;
        let x = work.pop().unwrap();
        proof {
            assert(x == input0[wlen - 1]);
            assert(work@ =~= input0.take(wlen - 1));
        }
        let ghost outg = out@;
        let mut j: usize = 0;
        while j < out.len()
            invariant
                out@ == outg,
                j <= out@.len(),
                forall|k: int| 0 <= k < j ==> lex_le((#[trigger] out@[k]).0@, x.0@),
            ensures
                out@ == outg,
                j <= out@.len(),
                forall|k: int| 0 <= k < j ==> lex_le((#[trigger] out@[k]).0@, x.0@),
                j < out@.len() ==> !lex_le(out@[j as int].0@, x.0@),
            decreases out@.len() - j,
        {
            if !str_lex_le(out[j].0.as_str(), x.0.as_str()) {
                break ;
            }
            j = j + 1;
        }
        let ghost out0 = out@;
        out.insert(j, x);
        proof {
            let o = out0.insert(j as int, x);
            assert(out@ == o);
            assert forall|k: int| 0 <= k < o.len() implies pair_ok(#[trigger] o[k], apps) by {
                if k < j {
                    assert(o[k] == out0[k]);
                } else if k == j {
                    assert(o[k] == x);
                } else {
                    assert(o[k] == out0[k - 1]);
                }
            }
            assert forall|a: int, b: int| 0 <= a < b < o.len() implies lex_le(
                (#[trigger] o[a]).0@,
                (#[trigger] o[b]).0@,
            ) && (#[trigger] o[a]).1@ != (#[trigger] o[b]).1@ by {
                let oa = if a < j {
                    out0[a]
                } else if a == j {
                    x
                } else {
                    out0[a - 1]
                };
                let ob = if b < j {
                    out0[b]
                } else if b == j {
                    x
                } else {
                    out0[b - 1]
                };
                assert(o[a] == oa);
                assert(o[b] == ob);
                if b == j {
                    assert(lex_le(oa.0@, x.0@));
                } else if a == j {
                    assert(!lex_le(out0[j as int].0@, x.0@));
                    lemma_lex_le_total(out0[j as int].0@, x.0@);
                    if b - 1 > j {
                        lemma_lex_le_trans(x.0@, out0[j as int].0@, out0[b - 1].0@);
                    }
                } else if a < j && b - 1 >= j && b - 1 < out0.len() && j < out0.len() {
                    assert(lex_le(out0[a].0@, out0[b - 1].0@));
                }
            }
            assert forall|a: int, b: int|
                0 <= a < out@.len() && 0 <= b < work@.len() implies (#[trigger] out@[a]).1@ != (
            #[trigger] work@[b]).1@ by {
                assert(work@[b] == input0[b]);
                if a < j {
                    assert(o[a] == out0[a]);
                } else if a == j {
                    assert(o[a] == x);
                    assert(input0[b].1@ != input0[wlen - 1].1@);
                } else {
                    assert(o[a] == out0[a - 1]);
                }
            }
            assert forall|k: int| work@.len() <= k < input0.len() implies id_in(
                out@,
                (#[trigger] input0[k]).1@,
            ) by {
                if k == wlen - 1 {
                    assert(o[j as int] == x);
                    assert(o[j as int].1@ == input0[k].1@);
                } else {
                    assert(id_in(out0, input0[k].1@));
                    let k2 = choose|k2: int|
                        0 <= k2 < out0.len() && (#[trigger] out0[k2]).1@ == input0[k].1@;
                    if k2 < j {
                        assert(o[k2] == out0[k2]);
                        assert(o[k2].1@ == input0[k].1@);
                    } else {
                        assert(o[k2 + 1] == out0[k2]);
                        assert(o[k2 + 1].1@ == input0[k].1@);
                    }
                }
            }
        }
    }
    proof {
        assert(input0.take(0) =~= Seq::<(String, String)>::empty());
        assert(ids_covered(input0, out@));
        assert(ids_covered(input@, out@));
    }
    out
}

/// No two rows stand for the same application.
pub open spec fn entries_distinct(es: Seq<Entry>) -> bool {
    forall|a: int, b: int| 0 <= a < b < es.len() ==> (#[trigger] es[a]).id@ != (#[trigger] es[b]).id@
}

/// The rows are ordered by the lower-cased names of their applications.
pub open spec fn entries_sorted(es: Seq<Entry>, apps: Seq<DesktopApp>) -> bool {
    forall|a: int, b: int| 0 <= a < b < es.len() ==> lex_le(
        lower_of(find_app(apps, (#[trigger] es[a]).id@)->0.name@),
        lower_of(find_app(apps, (#[trigger] es[b]).id@)->0.name@),
    )
}

/// Whether some row stands for the application with identifier `id`.
pub open spec fn has_entry_for(es: Seq<Entry>, id: Seq<char>) -> bool {
    exists|k: int| 0 <= k < es.len() && (#[trigger] es[k]).id@ == id
}

/// The menu: the current search text, one row per application, the
/// applications themselves, and the index of the selected row among the
/// visible ones.
pub struct IUMenu {
    pub search_content: String,
    pub entries: Vec<Entry>,
    pub apps: AppMap,
    pub selected_index: usize,
}

/// What activating the selected row yields: the application of the selected
/// visible row, or nothing when the search shows no rows.
pub open spec fn execute_action(m: IUMenu, r: Action) -> bool {
    match r {
        Action::Launch(app) => visible_entries(m.entries@).len() > 0 && m.selected_index < visible_entries(
            m.entries@,
        ).len() && find_app(m.apps@, visible_entries(m.entries@)[m.selected_index as int].id@)
            == Some(app),
        Action::Idle => visible_entries(m.entries@).len() == 0,
        Action::Quit => false,
    }
}

/// What clicking the row of `id` yields: that application, or nothing when
/// the map does not know the identifier.
pub open spec fn click_action(apps: Seq<DesktopApp>, id: Seq<char>, r: Action) -> bool {
    match find_app(apps, id) {
        Some(app) => r == Action::Launch(app),
        None => r is Idle,
    }
}

/// How a key changes the menu: the arrows move the selection over the
/// visible rows, enter activates the selected row, and escape asks to quit.
pub open spec fn key_transition(pre: IUMenu, post: IUMenu, key: KeyInput, r: Action) -> bool {
    &&& post.apps@ == pre.apps@
    &&& post.entries@ == pre.entries@
    &&& post.search_content == pre.search_content
    &&& match key {
        KeyInput::ArrowUp => post.selected_index as int == (if pre.selected_index > 0 {
            pre.selected_index - 1
        } else {
            0
        }) && r is Idle,
        KeyInput::ArrowDown => post.selected_index as int == (if pre.selected_index + 1
            < visible_entries(pre.entries@).len() {
            pre.selected_index + 1
        } else {
            pre.selected_index as int
        }) && r is Idle,
        KeyInput::Enter => post == pre && execute_action(pre, r),
        KeyInput::Escape => post == pre && r is Quit,
        KeyInput::Other => post == pre && r is Idle,
    }
}

/// How a new search text changes the menu: the text is stored, the
/// selection returns to the top, and each row is visible exactly when its
/// application matches the query.
pub open spec fn search_transition(pre: IUMenu, post: IUMenu, value: Seq<char>, r: Action) -> bool {
    &&& post.apps@ == pre.apps@
    &&& post.search_content@ == value
    &&& post.selected_index == 0
    &&& post.entries@.len() == pre.entries@.len()
    &&& (forall|k: int| 0 <= k < pre.entries@.len() ==> (#[trigger] post.entries@[k]).id@
        == pre.entries@[k].id@)
    &&& (forall|k: int| 0 <= k < pre.entries@.len() ==> (#[trigger] post.entries@[k]).visible
        == entry_matches(find_app(pre.apps@, pre.entries@[k].id@)->0, value))
    &&& r is Idle
}

impl IUMenu {
    /// A menu is well formed when its applications are, every row stands
    /// for a known application, and the selection lies on a visible row
    /// whenever there is one.
    pub open spec fn wf(&self) -> bool {
        &&& self.apps.wf()
        &&& (forall|k: int| 0 <= k < self.entries@.len() ==> find_app(
            self.apps@,
            (#[trigger] self.entries@[k]).id@,
        ) is Some)
        &&& (if visible_entries(self.entries@).len() == 0 {
            self.selected_index == 0
        } else {
            self.selected_index < visible_entries(self.entries@).len()
        })
    }

    /// A fresh menu over `apps`: one visible row per application, ordered
    /// by lower-cased name, with an empty search and the top row selected.
    pub fn new(apps: AppMap) -> (r: IUMenu)
        requires
            apps.wf(),
        ensures
            r.wf(),
            r.apps@ == apps@,
            r.search_content@ == Seq::<char>::empty(),
            r.selected_index == 0,
            r.entries@.len() == apps@.len(),
            forall|k: int| 0 <= k < r.entries@.len() ==> (#[trigger] r.entries@[k]).visible,
            entries_distinct(r.entries@),
            entries_sorted(r.entries@, apps@),
            forall|k: int| 0 <= k < apps@.len() ==> has_entry_for(
                r.entries@,
                (#[trigger] apps@[k]).id@,
            ),
    {
        let items = apps.entries();
        let n = items.len();
        let mut pairs: Vec<(String, String)> = Vec::new();
        let mut i: usize = 0;
        while i < n
            invariant
                apps.wf(),
                n == apps@.len(),
                items@ == apps@,
                i <= n,
                pairs@.len() == i,
                forall|k: int| 0 <= k < i ==> pair_ok(#[trigger] pairs@[k], apps@),
                forall|k: int| 0 <= k < i ==> (#[trigger] pairs@[k]).1@ == apps@[k].id@,
            decreases n - i,
        {
            let low = lowercase(items[i].name.as_str());
            let idc = items[i].id.clone();
            proof {
                crate::app_map::lemma_find_app_self(apps@, i as int);
            }
            pairs.push((low, idc));
            i = i + 1;
        }
        proof {
            assert forall|a: int, b: int| 0 <= a < b < pairs@.len() implies (#[trigger] pairs@[a]).1@
                != (#[trigger] pairs@[b]).1@ by {
                assert(apps@[a].id@ != apps@[b].id@);
            }
        }
        let ghost pairs0 = pairs@;
        let sorted = sort_pairs(pairs, Ghost(apps@));
        let m = sorted.len();
        let mut entries: Vec<Entry> = Vec::new();
        let mut i: usize = 0;
        while i < m
            invariant
                m == sorted@.len(),
                i <= m,
                entries@.len() == i,
                forall|k: int| 0 <= k < i ==> (#[trigger] entries@[k]).id@ == sorted@[k].1@,
                forall|k: int| 0 <= k < i ==> (#[trigger] entries@[k]).visible,
            decreases m - i,
        {
            let idc = sorted[i].1.clone();
            entries.push(Entry { visible: true, id: idc });
            i = i + 1;
        }
        proof {
            assert forall|a: int, b: int| 0 <= a < b < entries@.len() implies (
            #[trigger] entries@[a]).id@ != (#[trigger] entries@[b]).id@ by {
                assert(sorted@[a].1@ != sorted@[b].1@);
            }
            assert forall|k: int| 0 <= k < entries@.len() implies find_app(
                apps@,
                (#[trigger] entries@[k]).id@,
            ) is Some by {
                assert(pair_ok(sorted@[k], apps@));
            }
            assert forall|a: int, b: int| 0 <= a < b < entries@.len() implies lex_le(
                lower_of(find_app(apps@, (#[trigger] entries@[a]).id@)->0.name@),
                lower_of(find_app(apps@, (#[trigger] entries@[b]).id@)->0.name@),
            ) by {
                assert(pair_ok(sorted@[a], apps@));
                assert(pair_ok(sorted@[b], apps@));
                assert(lex_le(sorted@[a].0@, sorted@[b].0@));
            }
            assert forall|k: int| 0 <= k < apps@.len() implies has_entry_for(
                entries@,
                (#[trigger] apps@[k]).id@,
            ) by {
                assert(pairs0[k].1@ == apps@[k].id@);
                assert(id_in(sorted@, pairs0[k].1@));
                let k2 = choose|k2: int|
                    0 <= k2 < sorted@.len() && (#[trigger] sorted@[k2]).1@ == pairs0[k].1@;
                assert(entries@[k2].id@ == apps@[k].id@);
            }
        }
        IUMenu { search_content: String::new(), entries, apps, selected_index: 0 }
    }

    /// The application of the selected visible row, as an action; nothing
    /// when the search shows no rows.
    pub fn on_execute(&self) -> (r: Action)
        requires
            self.wf(),
        ensures
            execute_action(*self, r),
    {
        let n = self.entries.len();
        let mut i: usize = 0;
        let mut seen: usize = 0;
        proof {
            assert(self.entries@.take(0) =~= Seq::<Entry>::empty());
        }
        while i < n
            invariant
                self.wf(),
                n == self.entries@.len(),
                i <= n,
                seen <= i,
                seen <= self.selected_index,
                seen == visible_entries(self.entries@.take(i as int)).len(),
            decreases n - i,
        {
            proof {
                lemma_visible_push(self.entries@.take(i as int), self.entries@[i as int]);
                assert(self.entries@.take(i + 1) =~= self.entries@.take(i as int).push(
                    self.entries@[i as int],
                ));
            }
            if self.entries[i].visible {
                if seen == self.selected_index {
                    proof {
                        lemma_visible_split(self.entries@.take(i + 1), self.entries@.skip(i + 1));
                        assert(self.entries@.take(i + 1) + self.entries@.skip(i + 1)
                            =~= self.entries@);
                        assert(visible_entries(self.entries@)[seen as int]
                            == self.entries@[i as int]);
                    }
                    let ent = &self.entries[i];
                    match self.apps.get(ent.id.as_str()) {
                        Some(app) => {
                            return Action::Launch(app.duplicate());
                        },
                        None => {
                            proof {
                                assert(find_app(self.apps@, self.entries@[i as int].id@) is Some);
                                assert(false);
                            }
                            return Action::Idle;
                        },
                    }
                }
                seen = seen + 1;
            }
            i = i + 1;
        }
        proof {
            assert(self.entries@.take(n as int) =~= self.entries@);
        }
        Action::Idle
    }

    /// Moves the selection one visible row down, when there is one below.
    pub fn inc_selected(&mut self) -> (r: Action)
        requires
            old(self).wf(),
        ensures
            final(self).wf(),
            key_transition(*old(self), *final(self), KeyInput::ArrowDown, r),
    {
        let count = count_visible(&self.entries);
        if self.selected_index < count && count - self.selected_index > 1 {
            self.selected_index = self.selected_index + 1;
        }
        Action::Idle
    }

    /// Moves the selection one visible row up, when it is not at the top.
    pub fn dec_selected(&mut self) -> (r: Action)
        requires
            old(self).wf(),
        ensures
            final(self).wf(),
            key_transition(*old(self), *final(self), KeyInput::ArrowUp, r),
    {
        if self.selected_index > 0 {
            self.selected_index = self.selected_index - 1;
        }
        Action::Idle
    }

    /// Reacts to one key press.
    pub fn handle_input(&mut self, key_code: KeyInput) -> (r: Action)
        requires
            old(self).wf(),
        ensures
            final(self).wf(),
            key_transition(*old(self), *final(self), key_code, r),
    {
        match key_code {
            KeyInput::ArrowUp => self.dec_selected(),
            KeyInput::ArrowDown => self.inc_selected(),
            KeyInput::Enter => self.on_execute(),
            KeyInput::Escape => Action::Quit,
            KeyInput::Other => Action::Idle,
        }
    }

    /// Reacts to one message from the surrounding shell.
    pub fn update(&mut self, message: Message) -> (r: Action)
        requires
            old(self).wf(),
        ensures
            final(self).wf(),
            match message {
                Message::SearchChanged(value) => search_transition(
                    *old(self),
                    *final(self),
                    value@,
                    r,
                ),
                Message::ButtonClicked(app_id) => *final(self) == *old(self) && click_action(
                    old(self).apps@,
                    app_id@,
                    r,
                ),
                Message::OnSubmit => *final(self) == *old(self) && execute_action(*old(self), r),
                Message::KeyPressed(key) => key_transition(*old(self), *final(self), key, r),
            },
    {
        match message {
            Message::SearchChanged(value) => {
                let n = self.entries.len();
                let mut refreshed: Vec<Entry> = Vec::new();
                let mut i: usize = 0;
                while i < n
                    invariant
                        *self == *old(self),
                        old(self).wf(),
                        n == self.entries@.len(),
                        i <= n,
                        refreshed@.len() == i,
                        forall|k: int| 0 <= k < i ==> (#[trigger] refreshed@[k]).id@
                            == self.entries@[k].id@,
                        forall|k: int| 0 <= k < i ==> (#[trigger] refreshed@[k]).visible
                            == entry_matches(
                            find_app(self.apps@, self.entries@[k].id@)->0,
                            value@,
                        ),
                    decreases n - i,
                {
                    let vis = match self.apps.get(self.entries[i].id.as_str()) {
                        Some(app) => matches_query(app, value.as_str()),
                        None => {
                            proof {
                                assert(find_app(self.apps@, self.entries@[i as int].id@) is Some);
                                assert(false);
                            }
                            false
                        },
                    };
                    let idc = self.entries[i].id.clone();
                    refreshed.push(Entry { visible: vis, id: idc });
                    i = i + 1;
                }
                self.entries = refreshed;
                self.search_content = value;
                self.selected_index = 0;
                proof {
                    assert forall|k: int| 0 <= k < self.entries@.len() implies find_app(
                        self.apps@,
                        (#[trigger] self.entries@[k]).id@,
                    ) is Some by {
                        assert(self.entries@[k].id@ == old(self).entries@[k].id@);
                    }
                }
                Action::Idle
            },
            Message::ButtonClicked(app_id) => {
                match self.apps.get(app_id.as_str()) {
                    Some(app) => Action::Launch(app.duplicate()),
                    None => Action::Idle,
                }
            },
            Message::OnSubmit => self.on_execute(),
            Message::KeyPressed(key) => self.handle_input(key),
        }
    }
}

} // verus!
