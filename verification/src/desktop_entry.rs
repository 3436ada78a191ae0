//! The application record read from a desktop-entry definition file, the
//! parser for that file format, and the rules deciding which records a
//! launcher menu suppresses.

use vstd::prelude::*;
use vstd::string::*;
use crate::app_map::{find_app, AppMap};
use crate::text::{
    chars_eq, chars_to_string, copy_range, file_stem_for, find_char, remove_all, remove_pattern,
    split_chars, split_on, stem_of, str_chars, str_eq, trim_chars, trimmed,
};

verus! {

/// One installed application, as described by its desktop-entry file.
#[derive(Clone)]
pub struct DesktopApp {
    pub id: String,
    pub name: String,
    pub comment: String,
    pub command: String,
    pub keywords: String,
    pub app_type: String,
    pub categories: String,
    pub no_display: bool,
    pub only_show_in: String,
    pub icon: String,
}

impl DesktopApp {
    /// A record holding exactly the given fields.
    pub fn new(
        id: String,
        name: String,
        comment: String,
        command: String,
        keywords: String,
        app_type: String,
        categories: String,
        icon: String,
        no_display: bool,
        only_show_in: String,
    ) -> (r: Self)
        ensures
            r.id == id && r.name == name && r.comment == comment && r.command == command
                && r.keywords == keywords && r.app_type == app_type && r.categories == categories
                && r.icon == icon && r.no_display == no_display && r.only_show_in == only_show_in,
    {
        Self { id, name, comment, command, keywords, app_type, categories, icon, no_display, only_show_in }
    }

    /// A copy equal to this record.
    pub fn duplicate(&self) -> (r: Self)
        ensures
            r == *self,
    {
        DesktopApp {
            id: self.id.clone(),
            name: self.name.clone(),
            comment: self.comment.clone(),
            command: self.command.clone(),
            keywords: self.keywords.clone(),
            app_type: self.app_type.clone(),
            categories: self.categories.clone(),
            no_display: self.no_display,
            only_show_in: self.only_show_in.clone(),
            icon: self.icon.clone(),
        }
    }
}

/// The placeholders a desktop-entry command line may carry, in the order
/// they are removed.
pub open spec fn exec_placeholders() -> Seq<Seq<char>> {
    seq!["%U"@, "%u"@, "%F"@, "%f"@, "%i"@, "%c"@, "%k"@]
}

/// `s` with each placeholder in `pats` removed, first to last.
pub open spec fn remove_each(s: Seq<char>, pats: Seq<Seq<char>>) -> Seq<char>
    decreases pats.len(),
{
    if pats.len() == 0 {
        s
    } else {
        remove_each(remove_all(s, pats[0]), pats.drop_first())
    }
}

/// A command line with every placeholder removed and blanks trimmed away.
pub open spec fn cleaned_exec(s: Seq<char>) -> Seq<char> {
    trimmed(remove_each(s, exec_placeholders()))
}

/// Removing one more placeholder at the end continues the left fold.
proof fn lemma_remove_each_push(s: Seq<char>, pats: Seq<Seq<char>>, p: Seq<char>)
    ensures
        remove_each(s, pats.push(p)) == remove_all(remove_each(s, pats), p),
    decreases pats.len(),
{
    reveal_with_fuel(remove_each, 3);
    if pats.len() == 0 {
        assert(pats.push(p).drop_first() =~= Seq::<Seq<char>>::empty());
        assert(pats.push(p)[0] == p);
    } else {
        assert(pats.push(p).drop_first() =~= pats.drop_first().push(p));
        assert(pats.push(p)[0] == pats[0]);
        lemma_remove_each_push(remove_all(s, pats[0]), pats.drop_first(), p);
    }
}

/// The `Exec` line of an entry, with the launcher placeholders removed and
/// surrounding blanks trimmed.
pub fn clean_exec(line: &str) -> (r: String)
    ensures
        r@ == cleaned_exec(line@),
{
    let mut v = str_chars(line);
    let ghost mut done: Seq<Seq<char>> = Seq::empty();
    let mut k: usize = 0;
    proof {
        reveal_strlit("%U");
        reveal_strlit("%u");
        reveal_strlit("%F");
        reveal_strlit("%f");
        reveal_strlit("%i");
        reveal_strlit("%c");
        reveal_strlit("%k");
        assert(remove_each(line@, done) == line@);
    }
    while k < 7
        invariant
            k <= 7,
            done.len() == k,
            forall|j: int| 0 <= j < k ==> done[j] == exec_placeholders()[j],
            v@ == remove_each(line@, done),
        decreases 7 - k,
    {
        let lit: &str = if k == 0 {
            "%U"
        } else if k == 1 {
            "%u"
        } else if k == 2 {
            "%F"
        } else if k == 3 {
            "%f"
        } else if k == 4 {
            "%i"
        } else if k == 5 {
            "%c"
        } else {
            "%k"
        };
        let p = str_chars(lit);
        proof {
            reveal_strlit("%U");
            reveal_strlit("%u");
            reveal_strlit("%F");
            reveal_strlit("%f");
            reveal_strlit("%i");
            reveal_strlit("%c");
            reveal_strlit("%k");
            assert(p@ == exec_placeholders()[k as int] && p@.len() == 2);
            lemma_remove_each_push(line@, done, p@);
        }
        v = remove_pattern(&v, &p);
        proof {
            done = done.push(p@);
        }
        k = k + 1;
    }
    proof {
        assert(done =~= exec_placeholders());
    }
    let t = trim_chars(&v);
    chars_to_string(&t)
}

/// The section a line opens: the text between `[` and `]` after trimming,
/// itself trimmed.
pub open spec fn header_name(line: Seq<char>) -> Option<Seq<char>> {
    let t = trimmed(line);
    if t.len() >= 2 && t[0] == '[' && t.last() == ']' {
        Some(trimmed(t.subrange(1, t.len() - 1)))
    } else {
        None
    }
}

/// Whether a line carries nothing: only blanks, or a comment introduced by
/// `#` or `;`.
pub open spec fn is_blank_or_comment(line: Seq<char>) -> bool {
    let t = trimmed(line);
    t.len() == 0 || t[0] == '#' || t[0] == ';'
}

/// The key and value a line assigns: the trimmed text before the first `=`,
/// and the trimmed text after it.
pub open spec fn kv_of(line: Seq<char>) -> Option<(Seq<char>, Seq<char>)> {
    let i = find_char(line, '=') as int;
    if i >= line.len() {
        None
    } else {
        Some((trimmed(line.take(i)), trimmed(line.skip(i + 1))))
    }
}

/// The value of `key` in the first region of `lines` that a header naming
/// `target` opens: blank and comment lines say nothing, a header switches the
/// current section, and the first matching assignment inside the target
/// section wins. `in_sec` says whether the lines start inside the target
/// section.
pub open spec fn lookup_lines(
    lines: Seq<Seq<char>>,
    target: Seq<char>,
    key: Seq<char>,
    in_sec: bool,
) -> Option<Seq<char>>
    decreases lines.len(),
{
    if lines.len() == 0 {
        None
    } else {
        let l = lines[0];
        let rest = lines.drop_first();
        if is_blank_or_comment(l) {
            lookup_lines(rest, target, key, in_sec)
        } else {
            match header_name(l) {
                Some(name) => lookup_lines(rest, target, key, name == target),
                None => match kv_of(l) {
                    Some(kv) => if in_sec && kv.0 == key {
                        Some(kv.1)
                    } else {
                        lookup_lines(rest, target, key, in_sec)
                    },
                    None => lookup_lines(rest, target, key, in_sec),
                },
            }
        }
    }
}

/// Whether some line of `lines` opens a section named `target`.
pub open spec fn has_section(lines: Seq<Seq<char>>, target: Seq<char>) -> bool
    decreases lines.len(),
{
    if lines.len() == 0 {
        false
    } else {
        match header_name(lines[0]) {
            Some(name) => name == target || has_section(lines.drop_first(), target),
            None => has_section(lines.drop_first(), target),
        }
    }
}

/// The lines of a definition file.
pub open spec fn entry_lines(content: Seq<char>) -> Seq<Seq<char>> {
    split_on(content, '\n')
}

/// The name of the section that describes an application.
pub open spec fn desktop_section() -> Seq<char> {
    "Desktop Entry"@
}

/// The value of `key` in the desktop-entry section of `content`.
pub open spec fn entry_value(content: Seq<char>, key: Seq<char>) -> Option<Seq<char>> {
    lookup_lines(entry_lines(content), desktop_section(), key, false)
}

/// The value of `key`, or `dflt` when the section does not assign it.
pub open spec fn entry_value_or(content: Seq<char>, key: Seq<char>, dflt: Seq<char>) -> Seq<char> {
    match entry_value(content, key) {
        Some(v) => v,
        None => dflt,
    }
}

/// Whether `content` holds a desktop-entry section at all.
pub open spec fn has_desktop_section(content: Seq<char>) -> bool {
    has_section(entry_lines(content), desktop_section())
}

/// The section name a line opens, if any.
fn line_header(line: &Vec<char>) -> (r: Option<Vec<char>>)
    ensures
        match r {
            Some(name) => header_name(line@) == Some(name@),
            None => header_name(line@) is None,
        },
{
    let t = trim_chars(line);
    let n = t.len();
    if n >= 2 && t[0] == '[' && t[n - 1] == ']' {
        proof {
            assert(trimmed(line@).last() == t@[n - 1]);
        }
        let inner = copy_range(&t, 1, n - 1);
        Some(trim_chars(&inner))
    } else {
        proof {
            if trimmed(line@).len() >= 2 {
                assert(trimmed(line@).last() == t@[n - 1]);
            }
        }
        None
    }
}

/// Whether a line is blank or a comment.
fn line_blank_or_comment(line: &Vec<char>) -> (r: bool)
    ensures
        r == is_blank_or_comment(line@),
{
    let t = trim_chars(line);
    t.len() == 0 || t[0] == '#' || t[0] == ';'
}

/// The key and value a line assigns, if it assigns one.
fn line_kv(line: &Vec<char>) -> (r: Option<(Vec<char>, Vec<char>)>)
    ensures
        match r {
            Some(kv) => kv_of(line@) == Some((kv.0@, kv.1@)),
            None => kv_of(line@) is None,
        },
{
    let n = line.len();
    let mut i: usize = 0;
    while i < n && line[i] != '='
        invariant
            i <= n == line@.len(),
            forall|k: int| 0 <= k < i ==> line@[k] != '=',
        decreases n - i,
    {
        i = i + 1;
    }
    proof {
        crate::text::lemma_find_char_is(line@, '=', i as int);
    }
    if i == n {
        return None;
    }
    let rawk = copy_range(line, 0, i);
    let rawv = copy_range(line, i + 1, n);
    proof {
        assert(rawk@ =~= line@.take(i as int));
        assert(rawv@ =~= line@.skip(i + 1));
    }
    Some((trim_chars(&rawk), trim_chars(&rawv)))
}

/// Whether some line of `lines` opens a section named `target`.
fn lines_have_section(lines: &Vec<Vec<char>>, target: &Vec<char>) -> (r: bool)
    ensures
        r == has_section(lines.deep_view(), target@),
{
    let ghost ls = lines.deep_view();
    let n = lines.len();
    let mut i: usize = 0;
    proof {
        assert(ls.skip(0) =~= ls);
    }
    while i < n
        invariant
            ls == lines.deep_view(),
            i <= n == lines@.len() && n == ls.len(),
            has_section(ls, target@) == has_section(ls.skip(i as int), target@),
        decreases n - i,
    {
        proof {
            assert(ls[i as int] == lines@[i as int].deep_view());
            assert(lines@[i as int].deep_view() =~= lines@[i as int]@);
            assert(ls.skip(i as int)[0] == ls[i as int]);
            assert(ls.skip(i as int).drop_first() =~= ls.skip(i + 1));
        }
        if let Some(name) = line_header(&lines[i]) {
            if chars_eq(&name, target) {
                return true;
            }
        }
        i = i + 1;
    }
    proof {
        assert(ls.skip(n as int) =~= Seq::<Seq<char>>::empty());
    }
    false
}

/// The value assigned to `key` inside the section named `target`.
fn lines_lookup(lines: &Vec<Vec<char>>, target: &Vec<char>, key: &Vec<char>) -> (r: Option<
    Vec<char>,
>)
    ensures
        match r {
            Some(v) => lookup_lines(lines.deep_view(), target@, key@, false) == Some(v@),
            None => lookup_lines(lines.deep_view(), target@, key@, false) is None,
        },
{
    let ghost ls = lines.deep_view();
    let n = lines.len();
    let mut in_sec: bool = false;
    let mut i: usize = 0;
    proof {
        assert(ls.skip(0) =~= ls);
    }
    while i < n
        invariant
            ls == lines.deep_view(),
            i <= n == lines@.len() && n == ls.len(),
            lookup_lines(ls, target@, key@, false) == lookup_lines(
                ls.skip(i as int),
                target@,
                key@,
                in_sec,
            ),
        decreases n - i,
    {
        proof {
            assert(ls[i as int] == lines@[i as int].deep_view());
            assert(lines@[i as int].deep_view() =~= lines@[i as int]@);
            assert(ls.skip(i as int)[0] == ls[i as int]);
            assert(ls.skip(i as int).drop_first() =~= ls.skip(i + 1));
        }
        let line = &lines[i];
        if line_blank_or_comment(line) {
        } else if let Some(name) = line_header(line) {
            in_sec = chars_eq(&name, target);
        } else if let Some(kv) = line_kv(line) {
            if in_sec && chars_eq(&kv.0, key) {
                return Some(kv.1);
            }
        }
        i = i + 1;
    }
    proof {
        assert(ls.skip(n as int) =~= Seq::<Seq<char>>::empty());
    }
    None
}

/// The value of `key` in the target section as a string, or `dflt` when the
/// section does not assign it.
fn lookup_or(lines: &Vec<Vec<char>>, target: &Vec<char>, key: &str, dflt: &str) -> (r: String)
    ensures
        r@ == (match lookup_lines(lines.deep_view(), target@, key@, false) {
            Some(v) => v,
            None => dflt@,
        }),
{
    let kv = str_chars(key);
    match lines_lookup(lines, target, &kv) {
        Some(v) => chars_to_string(&v),
        None => String::from_str(dflt),
    }
}

/// Whether a desktop named in `desktop` may show an entry whose `OnlyShowIn`
/// list is `show_in`: the list names no desktop at all, no current desktop is
/// known, or the current desktop is one of the named ones.
pub open spec fn in_show_in(show_in: Seq<char>, desktop: Option<Seq<char>>) -> bool {
    let pieces = split_on(show_in, ';');
    ||| (forall|i: int| 0 <= i < pieces.len() ==> #[trigger] pieces[i].len() == 0)
    ||| match desktop {
        None => true,
        Some(d) => d.len() > 0 && pieces.contains(d),
    }
}

/// Whether the `OnlyShowIn` list `show_in` admits the current desktop.
pub fn is_in_show_in(show_in: &String, current_desktop: &Option<String>) -> (r: bool)
    ensures
        r == in_show_in(show_in@, current_desktop.deep_view()),
{
    let v = str_chars(show_in.as_str());
    let pieces = split_chars(&v, ';');
    let ghost ps = split_on(show_in@, ';');
    let mut any_named: bool = false;
    let mut i: usize = 0;
    while i < pieces.len()
        invariant
            pieces.deep_view() == ps,
            i <= pieces@.len() == ps.len(),
            any_named == !(forall|k: int| 0 <= k < i ==> #[trigger] ps[k].len() == 0),
        decreases pieces@.len() - i,
    {
        if pieces[i].len() > 0 {
            proof {
                assert(ps[i as int].len() > 0);
            }
            any_named = true;
        }
        i = i + 1;
    }
    if !any_named {
        return true;
    }
    match current_desktop {
        None => true,
        Some(d) => {
            let dv = str_chars(d.as_str());
            if dv.len() == 0 {
                proof {
                    assert(!(forall|k: int| 0 <= k < ps.len() ==> #[trigger] ps[k].len() == 0));
                }
                return false;
            }
            let mut j: usize = 0;
            let mut found: bool = false;
            while j < pieces.len()
                invariant
                    pieces.deep_view() == ps,
                    dv@ == d@,
                    j <= pieces@.len() == ps.len(),
                    found == (exists|k: int| 0 <= k < j && #[trigger] ps[k] == d@),
                decreases pieces@.len() - j,
            {
                proof {
                    assert(ps[j as int] == pieces@[j as int].deep_view());
                    assert(pieces@[j as int].deep_view() =~= pieces@[j as int]@);
                }
                let piece = chars_to_string(&pieces[j]);
                if str_eq(piece.as_str(), d.as_str()) {
                    proof {
                        assert(ps[j as int] == d@);
                    }
                    found = true;
                }
                j = j + 1;
            }
            proof {
                if found {
                    assert(ps.contains(d@));
                } else {
                    if ps.contains(d@) {
                        let k = choose|k: int| 0 <= k < ps.len() && ps[k] == d@;
                        assert(0 <= k < ps.len() && ps[k] == d@);
                    }
                }
                assert(!(forall|k: int| 0 <= k < ps.len() ==> #[trigger] ps[k].len() == 0));
            }
            found
        },
    }
}

/// Whether the launcher suppresses `app`: it is not of type `Application`,
/// it asks not to be displayed, or its `OnlyShowIn` list names desktops that
/// do not include the current one.
pub open spec fn suppressed(app: DesktopApp, desktop: Option<Seq<char>>) -> bool {
    app.app_type@ != "Application"@ || app.no_display || !in_show_in(app.only_show_in@, desktop)
}

/// Whether the menu leaves `app_data` out; true means the entry is hidden.
pub fn should_show(app_data: &DesktopApp, current_desktop: &Option<String>) -> (r: bool)
    ensures
        r == suppressed(*app_data, current_desktop.deep_view()),
{
    !str_eq(app_data.app_type.as_str(), "Application") || app_data.no_display
        || !is_in_show_in(&app_data.only_show_in, current_desktop)
}

/// How `app` relates to the definition file it was read from: each field is
/// the value its key is assigned in the desktop-entry section, or the
/// field's default; the command line is cleaned of placeholders.
pub open spec fn parses_to(content: Seq<char>, id: Seq<char>, app: DesktopApp) -> bool {
    &&& has_desktop_section(content)
    &&& app.id@ == id
    &&& app.name@ == entry_value_or(content, "Name"@, "Unknown"@)
    &&& app.comment@ == entry_value_or(content, "Comment"@, Seq::<char>::empty())
    &&& app.icon@ == entry_value_or(content, "Icon"@, Seq::<char>::empty())
    &&& app.app_type@ == entry_value_or(content, "Type"@, Seq::<char>::empty())
    &&& app.categories@ == entry_value_or(content, "Categories"@, "Unknown"@)
    &&& app.keywords@ == entry_value_or(content, "Keywords"@, Seq::<char>::empty())
    &&& app.only_show_in@ == entry_value_or(content, "OnlyShowIn"@, Seq::<char>::empty())
    &&& app.no_display == (entry_value_or(content, "NoDisplay"@, Seq::<char>::empty())
        == "true"@)
    &&& app.command@ == cleaned_exec(entry_value_or(content, "Exec"@, Seq::<char>::empty()))
}

/// The application record described by a definition file, or `None` when the
/// file has no desktop-entry section.
pub fn parse_desktop_file(content: &str, id: String) -> (r: Option<DesktopApp>)
    ensures
        match r {
            Some(app) => parses_to(content@, id@, app) && app.id == id,
            None => !has_desktop_section(content@),
        },
{
    let cv = str_chars(content);
    let lines = split_chars(&cv, '\n');
    let target = str_chars("Desktop Entry");
    proof {
        reveal_strlit("");
        assert(""@ =~= Seq::<char>::empty());
    }
    if !lines_have_section(&lines, &target) {
        return None;
    }
    let name = lookup_or(&lines, &target, "Name", "Unknown");
    let comment = lookup_or(&lines, &target, "Comment", "");
    let icon = lookup_or(&lines, &target, "Icon", "");
    let app_type = lookup_or(&lines, &target, "Type", "");
    let categories = lookup_or(&lines, &target, "Categories", "Unknown");
    let keywords = lookup_or(&lines, &target, "Keywords", "");
    let only_show_in = lookup_or(&lines, &target, "OnlyShowIn", "");
    let no_display_raw = lookup_or(&lines, &target, "NoDisplay", "");
    let no_display = str_eq(no_display_raw.as_str(), "true");
    let exec_raw = lookup_or(&lines, &target, "Exec", "");
    let command = clean_exec(exec_raw.as_str());
    Some(
        DesktopApp::new(
            id,
            name,
            comment,
            command,
            keywords,
            app_type,
            categories,
            icon,
            no_display,
            only_show_in,
        ),
    )
}

/// One file of a directory of desktop-entry definitions: its file name and
/// what it holds.
pub struct DesktopFile {
    pub name: String,
    pub content: String,
}

impl DesktopFile {
    /// A file record holding exactly the given name and content.
    pub fn new(name: String, content: String) -> (r: Self)
        ensures
            r.name == name && r.content == content,
    {
        DesktopFile { name, content }
    }
}

/// Whether the record a definition file describes is suppressed, said of the
/// file itself.
pub open spec fn content_suppressed(content: Seq<char>, desktop: Option<Seq<char>>) -> bool {
    ||| entry_value_or(content, "Type"@, Seq::<char>::empty()) != "Application"@
    ||| entry_value_or(content, "NoDisplay"@, Seq::<char>::empty()) == "true"@
    ||| !in_show_in(entry_value_or(content, "OnlyShowIn"@, Seq::<char>::empty()), desktop)
}

/// The identifier under which a directory scan would list `f`: the file name
/// must carry the `desktop` extension, the content must hold a desktop-entry
/// section, and the record must not be suppressed.
pub open spec fn file_entry_id(f: DesktopFile, desktop: Option<Seq<char>>) -> Option<Seq<char>> {
    match stem_of(f.name@, "desktop"@) {
        Some(id) => if has_desktop_section(f.content@) && !content_suppressed(f.content@, desktop) {
            Some(id)
        } else {
            None
        },
        None => None,
    }
}

/// The applications described by the given files: a file whose name carries
/// the `desktop` extension contributes the record its content describes,
/// under the file's stem as identifier, unless the record is suppressed for
/// the current desktop; among files contributing the same identifier the
/// last wins.
pub fn read_desktop_files(files: &Vec<DesktopFile>, current_desktop: &Option<String>) -> (r:
    AppMap)
    ensures
        r.wf(),
        forall|id: Seq<char>|
            match #[trigger] find_app(r@, id) {
                Some(app) => exists|j: int|
                    0 <= j < files@.len() && #[trigger] file_entry_id(
                        files@[j],
                        current_desktop.deep_view(),
                    ) == Some(id) && parses_to(files@[j].content@, id, app) && (forall|k: int|
                        j < k < files@.len() ==> #[trigger] file_entry_id(
                            files@[k],
                            current_desktop.deep_view(),
                        ) != Some(id)),
                None => forall|j: int|
                    0 <= j < files@.len() ==> #[trigger] file_entry_id(
                        files@[j],
                        current_desktop.deep_view(),
                    ) != Some(id),
            },
{
    let ghost dt = current_desktop.deep_view();
    let mut m = AppMap::new();
    let n = files.len();
    let mut i: usize = 0;
    while i < n
        invariant
            n == files@.len(),
            i <= n,
            dt == current_desktop.deep_view(),
            m.wf(),
            forall|id: Seq<char>|
                match #[trigger] find_app(m@, id) {
                    Some(app) => exists|j: int|
                        0 <= j < i && #[trigger] file_entry_id(files@[j], dt) == Some(id)
                            && parses_to(files@[j].content@, id, app) && (forall|k: int|
                            j < k < i ==> #[trigger] file_entry_id(files@[k], dt) != Some(id)),
                    None => forall|j: int|
                        0 <= j < i ==> #[trigger] file_entry_id(files@[j], dt) != Some(id),
                },
        decreases n - i,
    {
        let f = &files[i];
        let ghost fi = files@[i as int];
        let ghost m0 = m@;
        let mut contributed: bool = false;
        let ghost mut cid: Seq<char> = Seq::empty();
        if let Some(id) = file_stem_for(f.name.as_str(), "desktop") {
            let ghost idv = id@;
            if let Some(app) = parse_desktop_file(f.content.as_str(), id) {
                if !should_show(&app, current_desktop) {
                    proof {
                        assert(!content_suppressed(fi.content@, dt));
                        assert(file_entry_id(fi, dt) == Some(idv));
                    }
                    let ghost appg = app;
                    m.insert(app);
                    contributed = true;
                    proof {
                        cid = idv;
                        assert(find_app(m@, idv) == Some(appg));
                        assert(parses_to(fi.content@, idv, appg));
                    }
                } else {
                    proof {
                        assert(content_suppressed(fi.content@, dt));
                        assert(file_entry_id(fi, dt) is None);
                    }
                }
            } else {
                proof {
                    assert(file_entry_id(fi, dt) is None);
                }
            }
        } else {
            proof {
                assert(file_entry_id(fi, dt) is None);
            }
        }
        proof {
            if contributed {
                assert(file_entry_id(fi, dt) == Some(cid));
            } else {
                assert(file_entry_id(fi, dt) is None);
                assert(m@ == m0);
            }
            assert forall|id: Seq<char>|
                match #[trigger] find_app(m@, id) {
                    Some(app) => exists|j: int|
                        0 <= j < i + 1 && #[trigger] file_entry_id(files@[j], dt) == Some(id)
                            && parses_to(files@[j].content@, id, app) && (forall|k: int|
                            j < k < i + 1 ==> #[trigger] file_entry_id(files@[k], dt) != Some(
                                id,
                            )),
                    None => forall|j: int|
                        0 <= j < i + 1 ==> #[trigger] file_entry_id(files@[j], dt) != Some(id),
                } by {
                if contributed && id == cid {
                    let app = find_app(m@, id)->0;
                    assert(find_app(m@, id) == Some(app));
                    assert(file_entry_id(files@[i as int], dt) == Some(id));
                    assert(parses_to(files@[i as int].content@, id, app));
                } else {
                    assert(find_app(m@, id) == find_app(m0, id));
                    match find_app(m0, id) {
                        Some(app) => {
                            let j = choose|j: int|
                                0 <= j < i && #[trigger] file_entry_id(files@[j], dt) == Some(id)
                                    && parses_to(files@[j].content@, id, app) && (forall|k: int|
                                    j < k < i ==> #[trigger] file_entry_id(files@[k], dt) != Some(
                                        id,
                                    ));
                            assert(0 <= j < i + 1 && file_entry_id(files@[j], dt) == Some(id)
                                && parses_to(files@[j].content@, id, app));
                            assert(file_entry_id(files@[i as int], dt) != Some(id));
                        },
                        None => {
                            assert(file_entry_id(files@[i as int], dt) != Some(id));
                        },
                    }
                }
            }
        }
        i = i + 1;
    }
    m
}

/// All applications the three discovery sources offer together: a record of
/// a later source replaces one of an earlier source with the same
/// identifier, so `user` wins over `local`, which wins over `system`.
pub fn get_available_apps(system: &AppMap, local: &AppMap, user: &AppMap) -> (r: AppMap)
    requires
        system.wf(),
        local.wf(),
        user.wf(),
    ensures
        r.wf(),
        forall|id: Seq<char>|
            #[trigger] find_app(r@, id) == (if find_app(user@, id) is Some {
                find_app(user@, id)
            } else if find_app(local@, id) is Some {
                find_app(local@, id)
            } else {
                find_app(system@, id)
            }),
{
    let mut m = AppMap::new();
    let ghost e = m@;
    m.extend(system);
    let ghost m1 = m@;
    m.extend(local);
    let ghost m2 = m@;
    m.extend(user);
    proof {
        assert forall|id: Seq<char>|
            #[trigger] find_app(m@, id) == (if find_app(user@, id) is Some {
                find_app(user@, id)
            } else if find_app(local@, id) is Some {
                find_app(local@, id)
            } else {
                find_app(system@, id)
            }) by {
            assert(find_app(m1, id) == (if find_app(system@, id) is Some {
                find_app(system@, id)
            } else {
                find_app(e, id)
            }));
            assert(find_app(m2, id) == (if find_app(local@, id) is Some {
                find_app(local@, id)
            } else {
                find_app(m1, id)
            }));
        }
    }
    m
}

} // verus!
