//! What happens when an application is launched: its command line is split
//! into the program and its arguments. Spawning the process itself is the
//! shell's business. Alongside stands the rule that picks an application's
//! executable among a directory's file names.

use vstd::prelude::*;
use vstd::string::*;
use crate::text::{
    chars_to_string, contains_seq, copy_range, is_space, is_space_char, stem_of, str_chars,
    str_contains, file_stem_for,
};

verus! {

/// The index of the first blank character of `s`, or the length of `s` when
/// none occurs.
pub open spec fn find_space(s: Seq<char>) -> nat
    decreases s.len(),
{
    if s.len() == 0 {
        0
    } else if is_space(s[0]) {
        0
    } else {
        1 + find_space(s.drop_first())
    }
}

/// An index below which no blank occurs, and which holds a blank or is the
/// length, is what `find_space` returns.
proof fn lemma_find_space_is(s: Seq<char>, i: int)
    requires
        0 <= i <= s.len(),
        forall|k: int| 0 <= k < i ==> !is_space(s[k]),
        i == s.len() || is_space(s[i]),
    ensures
        find_space(s) == i,
    decreases i,
{
    if i > 0 {
        lemma_find_space_is(s.drop_first(), i - 1);
    }
}

/// The maximal runs of non-blank characters of `s`, in order.
pub open spec fn ws_tokens(s: Seq<char>) -> Seq<Seq<char>>
    decreases s.len(),
{
    if s.len() == 0 {
        Seq::empty()
    } else if is_space(s[0]) {
        ws_tokens(s.drop_first())
    } else {
        let k = find_space(s) as int;
        if k >= s.len() {
            seq![s]
        } else {
            seq![s.take(k)] + ws_tokens(s.skip(k))
        }
    }
}

/// The program and arguments of a command line: the first blank-separated
/// word and the remaining ones; `None` when the line holds no word.
pub fn split_command(command: &str) -> (r: Option<(String, Vec<String>)>)
    ensures
        match r {
            Some(pair) => ws_tokens(command@).len() > 0 && pair.0@ == ws_tokens(command@)[0]
                && pair.1.deep_view() == ws_tokens(command@).drop_first(),
            None => ws_tokens(command@).len() == 0,
        },
{
    let v = str_chars(command);
    let n = v.len();
    let mut toks: Vec<String> = Vec::new();
    let mut i: usize = 0;
    proof {
        assert(v@.skip(0) =~= v@);
        assert(toks.deep_view() + ws_tokens(v@) =~= ws_tokens(v@));
    }
    while i < n
        invariant
            n == v@.len() && v@ == command@,
            i <= n,
            toks.deep_view() + ws_tokens(v@.skip(i as int)) == ws_tokens(v@),
        decreases n - i,
    {
        let ghost t = v@.skip(i as int);
        if is_space_char(v[i]) {
            proof {
                assert(t.drop_first() =~= v@.skip(i + 1));
            }
            i = i + 1;
        } else {
            let mut j: usize = i;
            while j < n && !is_space_char(v[j])
                invariant
                    i <= j <= n == v@.len(),
                    forall|k: int| i <= k < j ==> !is_space(v@[k]),
                decreases n - j,
            {
                j = j + 1;
            }
            proof {
                assert(forall|k: int| 0 <= k < j - i ==> !is_space(#[trigger] t[k]));
                lemma_find_space_is(t, j - i);
            }
            let tok = copy_range(&v, i, j);
            proof {
                assert(tok@ =~= t.take(j - i));
                if j == n {
                    assert(t.take(j - i) =~= t);
                } else {
                    assert(t.skip(j - i) =~= v@.skip(j as int));
                }
            }
            let ghost toks0 = toks.deep_view();
            toks.push(chars_to_string(&tok));
            proof {
                assert(toks.deep_view() =~~= toks0.push(tok@));
                assert(toks0.push(tok@) + ws_tokens(v@.skip(j as int)) =~= toks0 + (seq![tok@]
                    + ws_tokens(v@.skip(j as int))));
                if j == n {
                    assert(ws_tokens(v@.skip(j as int)) =~= Seq::<Seq<char>>::empty());
                    assert(seq![tok@] + ws_tokens(v@.skip(j as int)) =~= seq![t]);
                }
            }
            i = j;
        }
    }
    proof {
        assert(v@.skip(n as int) =~= Seq::<char>::empty());
        assert(toks.deep_view() + Seq::<Seq<char>>::empty() =~= toks.deep_view());
    }
    if toks.len() == 0 {
        return None;
    }
    let mut rest = toks;
    let first = rest.remove(0);
    proof {
        assert(rest.deep_view() =~~= ws_tokens(command@).drop_first());
    }
    Some((first, rest))
}

/// Whether a file name is the executable the launcher would pick: it
/// carries the `exe` extension and does not mention `uninstall`.
pub open spec fn wanted_executable(name: Seq<char>) -> bool {
    stem_of(name, "exe"@) is Some && !contains_seq(name, "uninstall"@)
}

/// The first file name that looks like the application's executable.
pub fn find_executable(names: &Vec<String>) -> (r: Option<String>)
    ensures
        match r {
            Some(s) => exists|k: int|
                0 <= k < names@.len() && s@ == (#[trigger] names@[k])@ && wanted_executable(s@) && (
                forall|k2: int| 0 <= k2 < k ==> !wanted_executable((#[trigger] names@[k2])@)),
            None => forall|k: int| 0 <= k < names@.len() ==> !wanted_executable(
                (#[trigger] names@[k])@,
            ),
        },
{
    let n = names.len();
    let mut i: usize = 0;
    while i < n
        invariant
            n == names@.len(),
            i <= n,
            forall|k: int| 0 <= k < i ==> !wanted_executable((#[trigger] names@[k])@),
        decreases n - i,
    {
        let name = &names[i];
        let is_exe = match file_stem_for(name.as_str(), "exe") {
            Some(_) => true,
            None => false,
        };
        if is_exe && !str_contains(name.as_str(), "uninstall") {
            return Some(name.clone());
        }
        i = i + 1;
    }
    None
}

} // verus!
