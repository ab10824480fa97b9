//! The filesystem-completion engine.
//!
//! Given the current line and cursor position, the engine resolves the
//! word being completed, decides which directory to search and which name
//! fragment to match, filters the directory's entries (directories only in
//! a `cd` context, names matching the fragment case-insensitively), ranks
//! them directories first and lexicographically by name within each group,
//! and builds a display and replacement text for each. Reading the
//! directory itself is the surrounding binary's task; the entries arrive
//! here as plain name/kind pairs.

use vstd::prelude::*;
use crate::strutil::{
    chars_of,
    is_space,
    is_space_char,
    lex_le,
    lemma_lex_total,
    lemma_lex_trans,
    push_char,
    str_lex_le,
    str_starts_with,
    string_of,
    subvec,
    vec_concat,
};

verus! {

/// Last index of `c` among the first `hi` characters of `s`, or `-1`.
pub open spec fn spec_rfind(s: Seq<char>, c: char, hi: int) -> int
    decreases hi,
{
    if hi <= 0 {
        -1
    } else if s[hi - 1] == c {
        hi - 1
    } else {
        spec_rfind(s, c, hi - 1)
    }
}

proof fn lemma_rfind_props(s: Seq<char>, c: char, hi: int)
    requires
        0 <= hi <= s.len(),
    ensures
        ({
            let f = spec_rfind(s, c, hi);
            &&& -1 <= f < hi
            &&& (f == -1 <==> forall|j: int| 0 <= j < hi ==> s[j] != c)
            &&& (f >= 0 ==> s[f] == c && forall|j: int| f < j < hi ==> s[j] != c)
        }),
    decreases hi,
{
    if hi > 0 && s[hi - 1] != c {
        lemma_rfind_props(s, c, hi - 1);
    }
}

fn rfind_char(s: &Vec<char>, c: char, hi: usize) -> (r: Option<usize>)
    requires
        hi <= s@.len(),
    ensures
        ({
            let f = spec_rfind(s@, c, hi as int);
            match r {
                None => f == -1,
                Some(k) => f == k && k < hi,
            }
        }),
    decreases hi,
{
    if hi == 0 {
        None
    } else if s[hi - 1] == c {
        Some(hi - 1)
    } else {
        rfind_char(s, c, hi - 1)
    }
}

/// The line split at the last space before the cursor: the text through
/// that space, and the word after it. Without a space, the whole text
/// before the cursor is the word.
pub open spec fn spec_extract_word(line: Seq<char>, pos: int) -> (Seq<char>, Seq<char>) {
    let upto = line.subrange(0, pos);
    let k = spec_rfind(upto, ' ', pos);
    if k == -1 {
        (Seq::empty(), upto)
    } else {
        (upto.subrange(0, k + 1), upto.subrange(k + 1, pos))
    }
}

/// The line's characters with trailing whitespace removed.
pub open spec fn spec_trim_end(s: Seq<char>) -> Seq<char>
    decreases s.len(),
{
    if s.len() == 0 {
        s
    } else if is_space(s.last()) {
        spec_trim_end(s.drop_last())
    } else {
        s
    }
}

/// Whether the text before the word being completed puts the engine in a
/// `cd` context: ignoring trailing whitespace, it ends in `cd`.
pub open spec fn spec_is_cd_prefix(prefix: Seq<char>) -> bool {
    let t = spec_trim_end(prefix);
    t.len() >= 2 && t[t.len() - 2] == 'c' && t[t.len() - 1] == 'd'
}

fn is_cd_prefix(prefix: &Vec<char>) -> (r: bool)
    ensures
        r == spec_is_cd_prefix(prefix@),
{
    let mut e: usize = prefix.len();
    proof {
        assert(prefix@.subrange(0, e as int) =~= prefix@);
    }
    while e > 0 && is_space_char(prefix[e - 1])
        invariant
            e <= prefix@.len(),
            spec_trim_end(prefix@) == spec_trim_end(prefix@.subrange(0, e as int)),
        decreases e,
    {
        proof {
            let cur = prefix@.subrange(0, e as int);
            assert(cur.drop_last() =~= prefix@.subrange(0, e - 1));
            assert(cur.last() == prefix@[e - 1]);
        }
        e = e - 1;
    }
    proof {
        let cur = prefix@.subrange(0, e as int);
        if e > 0 {
            assert(cur.last() == prefix@[e - 1]);
            assert(!is_space(cur.last()));
        }
        assert(spec_trim_end(cur) == cur);
    }
    if e >= 2 {
        let c1 = prefix[e - 2];
        let c2 = prefix[e - 1];
        proof {
            let cur = prefix@.subrange(0, e as int);
            assert(cur[cur.len() - 2] == prefix@[e - 2]);
            assert(cur[cur.len() - 1] == prefix@[e - 1]);
        }
        c1 == 'c' && c2 == 'd'
    } else {
        false
    }
}

/// The word prefix, the partial word, and whether the engine is in a `cd`
/// context, derived fresh from the line and cursor on every request.
#[derive(Debug)]
pub struct CompletionContext {
    pub full_line: String,
    pub cursor_offset: usize,
    pub word_prefix: String,
    pub partial_word: String,
    pub is_cd_context: bool,
}

/// The completion engine. It holds no state: candidates are recomputed on
/// every request.
pub struct FileCompleter;

impl FileCompleter {
    pub fn new() -> FileCompleter {
        FileCompleter
    }

    /// Splits the line before the cursor into the text through the last
    /// space and the word being completed.
    pub fn extract_word(&self, line: &str, pos: usize) -> (r: (String, String))
        requires
            pos <= line@.len(),
        ensures
            r.0@ == spec_extract_word(line@, pos as int).0,
            r.1@ == spec_extract_word(line@, pos as int).1,
    {
        let cs = chars_of(line);
        let upto = subvec(&cs, 0, pos);
        proof {
            lemma_rfind_props(upto@, ' ', pos as int);
        }
        match rfind_char(&upto, ' ', pos) {
            None => {
                let word = string_of(&upto);
                let empty = String::new();
                proof {
                    assert(empty@ =~= Seq::<char>::empty());
                }
                (empty, word)
            },
            Some(k) => {
                let prefix = subvec(&upto, 0, k + 1);
                let word = subvec(&upto, k + 1, pos);
                (string_of(&prefix), string_of(&word))
            },
        }
    }

    /// The completion context for a line and cursor position.
    pub fn context(&self, line: &str, pos: usize) -> (r: CompletionContext)
        requires
            pos <= line@.len(),
        ensures
            r.full_line@ == line@,
            r.cursor_offset == pos,
            r.word_prefix@ == spec_extract_word(line@, pos as int).0,
            r.partial_word@ == spec_extract_word(line@, pos as int).1,
            r.is_cd_context == spec_is_cd_prefix(spec_extract_word(line@, pos as int).0),
    {
        let (prefix, word) = self.extract_word(line, pos);
        let prefix_chars = chars_of(prefix.as_str());
        let is_cd = is_cd_prefix(&prefix_chars);
        CompletionContext {
            full_line: line.to_owned(),
            cursor_offset: pos,
            word_prefix: prefix,
            partial_word: word,
            is_cd_context: is_cd,
        }
    }
}

/// The path the partial word denotes, resolved against the working
/// directory: the word itself when absolute, otherwise the working
/// directory joined with it by a separator.
pub open spec fn spec_join_path(cwd: Seq<char>, word: Seq<char>) -> Seq<char> {
    if word.len() > 0 && word[0] == '/' {
        word
    } else if cwd.len() > 0 && cwd.last() == '/' {
        cwd + word
    } else {
        cwd + seq!['/'] + word
    }
}

/// The directory whose entries are searched, and the name fragment the
/// entries must match. A word without a separator searches the working
/// directory for the word itself; a word ending in a separator searches
/// the resolved path with an empty fragment; otherwise the resolved path
/// splits at its last separator.
pub open spec fn spec_search_split(word: Seq<char>, cwd: Seq<char>) -> (Seq<char>, Seq<char>) {
    if !word.contains('/') {
        (cwd, word)
    } else {
        let path = spec_join_path(cwd, word);
        if word.last() == '/' {
            (path, Seq::empty())
        } else {
            let k = spec_rfind(path, '/', path.len() as int);
            (path.subrange(0, k + 1), path.subrange(k + 1, path.len() as int))
        }
    }
}

/// The lower-case folding of a string, as `str::to_lowercase` computes
/// it. The folding depends on the characters alone.
pub uninterp spec fn lower_of(s: Seq<char>) -> Seq<char>;

/// Relies on `str::to_lowercase`: the result depends only on the
/// characters of the input.
#[verifier::external_body]
fn fold_case(s: &str) -> (r: String)
    ensures
        r@ == lower_of(s@),
{
    s.to_lowercase()
}

/// Whether an entry name matches the fragment: the folded fragment is a
/// prefix of the folded name.
pub open spec fn spec_name_matches(name: Seq<char>, fragment: Seq<char>) -> bool {
    lower_of(fragment).is_prefix_of(lower_of(name))
}

/// Case-insensitive prefix test, through the same folding the engine's
/// contracts use.
pub fn name_matches(name: &str, fragment: &str) -> (r: bool)
    ensures
        r == spec_name_matches(name@, fragment@),
{
    let folded_name = fold_case(name);
    let folded_fragment = fold_case(fragment);
    str_starts_with(folded_name.as_str(), folded_fragment.as_str())
}

/// One entry of the searched directory: its name and whether it is a
/// directory.
#[derive(Debug)]
pub struct FsEntry {
    pub name: String,
    pub is_dir: bool,
}

/// The mathematical shape of a directory entry.
pub struct EntryModel {
    pub name: Seq<char>,
    pub is_dir: bool,
}

impl View for FsEntry {
    type V = EntryModel;

    open spec fn view(&self) -> EntryModel {
        EntryModel { name: self.name@, is_dir: self.is_dir }
    }
}

impl DeepView for FsEntry {
    type V = EntryModel;

    open spec fn deep_view(&self) -> EntryModel {
        self.view()
    }
}

/// The ranking order: directories before files, and lexicographically by
/// name within each group.
pub open spec fn entry_le(a: EntryModel, b: EntryModel) -> bool {
    if a.is_dir != b.is_dir {
        a.is_dir
    } else {
        lex_le(a.name, b.name)
    }
}

/// The ranking order is total.
pub proof fn lemma_entry_le_total(a: EntryModel, b: EntryModel)
    ensures
        entry_le(a, b) || entry_le(b, a),
{
    if a.is_dir == b.is_dir {
        lemma_lex_total(a.name, b.name, 0);
    }
}

/// The ranking order is transitive.
pub proof fn lemma_entry_le_trans(a: EntryModel, b: EntryModel, c: EntryModel)
    requires
        entry_le(a, b),
        entry_le(b, c),
    ensures
        entry_le(a, c),
{
    if a.is_dir == b.is_dir && b.is_dir == c.is_dir {
        lemma_lex_trans(a.name, b.name, c.name, 0);
    }
}

fn entry_le_exec(a: &FsEntry, b: &FsEntry) -> (r: bool)
    ensures
        r == entry_le(a@, b@),
{
    if a.is_dir != b.is_dir {
        a.is_dir
    } else {
        str_lex_le(a.name.as_str(), b.name.as_str())
    }
}

/// Whether an entry is kept: in a `cd` context only directories survive,
/// and unless everything is shown, the name must match the fragment
/// case-insensitively (an empty fragment matches everything).
pub open spec fn spec_keep_entry(
    e: EntryModel,
    is_cd: bool,
    fragment: Seq<char>,
    show_all: bool,
) -> bool {
    (is_cd ==> e.is_dir) && (show_all || fragment.len() == 0 || spec_name_matches(e.name, fragment))
}

fn keep_entry(e: &FsEntry, is_cd: bool, fragment: &str, show_all: bool) -> (r: bool)
    ensures
        r == spec_keep_entry(e@, is_cd, fragment@, show_all),
{
    if is_cd && !e.is_dir {
        false
    } else if show_all {
        true
    } else if fragment.unicode_len() == 0 {
        true
    } else {
        name_matches(e.name.as_str(), fragment)
    }
}

/// `e` inserted into `s` after every element not greater than it.
pub open spec fn spec_insert_sorted(s: Seq<EntryModel>, e: EntryModel) -> Seq<EntryModel>
    decreases s.len(),
{
    if s.len() == 0 {
        seq![e]
    } else if entry_le(s[0], e) {
        seq![s[0]] + spec_insert_sorted(s.drop_first(), e)
    } else {
        seq![e] + s
    }
}

/// Insertion sort of the entries under the ranking order.
pub open spec fn spec_sort_entries(s: Seq<EntryModel>) -> Seq<EntryModel>
    decreases s.len(),
{
    if s.len() == 0 {
        s
    } else {
        spec_insert_sorted(spec_sort_entries(s.drop_last()), s.last())
    }
}

/// Sortedness under the ranking order.
pub open spec fn spec_entries_sorted(s: Seq<EntryModel>) -> bool {
    forall|i: int, j: int| 0 <= i < j < s.len() ==> entry_le(s[i], s[j])
}

proof fn lemma_insert_sorted_multiset(s: Seq<EntryModel>, e: EntryModel)
    ensures
        spec_insert_sorted(s, e).to_multiset() == s.to_multiset().insert(e),
        spec_insert_sorted(s, e).len() == s.len() + 1,
    decreases s.len(),
{
    broadcast use vstd::seq_lib::group_to_multiset_ensures;

    if s.len() == 0 {
        assert(seq![e] =~= Seq::<EntryModel>::empty().push(e));
        assert(seq![e].to_multiset() =~= s.to_multiset().insert(e));
    } else if entry_le(s[0], e) {
        lemma_insert_sorted_multiset(s.drop_first(), e);
        let rest = spec_insert_sorted(s.drop_first(), e);
        assert(seq![s[0]] + rest =~= rest.insert(0, s[0]));
        assert((seq![s[0]] + rest).to_multiset() =~= rest.to_multiset().insert(s[0]));
        assert(s =~= s.drop_first().insert(0, s[0]));
        assert(s.to_multiset() =~= s.drop_first().to_multiset().insert(s[0]));
        assert(rest.to_multiset().insert(s[0]) =~= s.drop_first().to_multiset().insert(e).insert(
            s[0],
        ));
        assert(s.drop_first().to_multiset().insert(e).insert(s[0]) =~= s.drop_first().to_multiset()
            .insert(s[0]).insert(e));
    } else {
        assert(seq![e] + s =~= s.insert(0, e));
        assert((seq![e] + s).to_multiset() =~= s.to_multiset().insert(e));
    }
}

proof fn lemma_insert_sorted_sorted(s: Seq<EntryModel>, e: EntryModel)
    requires
        spec_entries_sorted(s),
    ensures
        spec_entries_sorted(spec_insert_sorted(s, e)),
    decreases s.len(),
{
    broadcast use vstd::seq_lib::group_to_multiset_ensures;

    if s.len() == 0 {
    } else if entry_le(s[0], e) {
        let rest = spec_insert_sorted(s.drop_first(), e);
        assert(spec_entries_sorted(s.drop_first()));
        lemma_insert_sorted_sorted(s.drop_first(), e);
        lemma_insert_sorted_multiset(s.drop_first(), e);
        let out = seq![s[0]] + rest;
        // every element of `rest` is either `e` or an element of the
        // sorted tail, so the head stays below all of them
        assert forall|j: int| 1 <= j < out.len() implies entry_le(out[0], out[j]) by {
            assert(out[j] == rest[j - 1]);
            assert(rest.to_multiset().count(rest[j - 1]) > 0);
            assert(rest.to_multiset() == s.drop_first().to_multiset().insert(e));
            if rest[j - 1] == e {
                assert(entry_le(s[0], e));
            } else {
                assert(s.drop_first().to_multiset().count(rest[j - 1]) > 0);
                assert(s.drop_first().contains(rest[j - 1]));
                let w = choose|w: int|
                    0 <= w < s.drop_first().len() && s.drop_first()[w] == rest[j - 1];
                assert(s[w + 1] == rest[j - 1]);
                assert(entry_le(s[0], s[w + 1]));
            }
        }
        assert forall|i: int, j: int| 0 <= i < j < out.len() implies entry_le(out[i], out[j]) by {
            if i == 0 {
                assert(entry_le(out[0], out[j]));
            } else {
                assert(out[i] == rest[i - 1] && out[j] == rest[j - 1]);
            }
        }
    } else {
        let out = seq![e] + s;
        lemma_entry_le_total(s[0], e);
        assert forall|i: int, j: int| 0 <= i < j < out.len() implies entry_le(out[i], out[j]) by {
            if i == 0 {
                assert(out[j] == s[j - 1]);
                if j == 1 {
                    assert(entry_le(e, s[0]));
                } else {
                    assert(entry_le(s[0], s[j - 1]));
                    lemma_entry_le_trans(e, s[0], s[j - 1]);
                }
            } else {
                assert(out[i] == s[i - 1] && out[j] == s[j - 1]);
            }
        }
    }
}

/// The sorted entries are a permutation of the input, and sorted.
pub proof fn lemma_sort_entries_ensures(s: Seq<EntryModel>)
    ensures
        spec_sort_entries(s).to_multiset() == s.to_multiset(),
        spec_sort_entries(s).len() == s.len(),
        spec_entries_sorted(spec_sort_entries(s)),
    decreases s.len(),
{
    broadcast use vstd::seq_lib::group_to_multiset_ensures;

    if s.len() > 0 {
        lemma_sort_entries_ensures(s.drop_last());
        lemma_insert_sorted_multiset(spec_sort_entries(s.drop_last()), s.last());
        lemma_insert_sorted_sorted(spec_sort_entries(s.drop_last()), s.last());
        assert(s =~= s.drop_last().push(s.last()));
        assert(s.to_multiset() =~= s.drop_last().to_multiset().insert(s.last()));
    }
}

/// Every element of the sorted entries comes from the input.
pub proof fn lemma_sort_entries_membership(s: Seq<EntryModel>, i: int)
    requires
        0 <= i < spec_sort_entries(s).len(),
    ensures
        s.contains(spec_sort_entries(s)[i]),
{
    broadcast use vstd::seq_lib::group_to_multiset_ensures;

    lemma_sort_entries_ensures(s);
    let x = spec_sort_entries(s)[i];
    assert(spec_sort_entries(s).to_multiset().count(x) > 0);
}

#[verifier::loop_isolation(false)]
fn filter_entries(entries: &Vec<FsEntry>, is_cd: bool, fragment: &str, show_all: bool) -> (r: Vec<
    FsEntry,
>)
    ensures
        r.deep_view() == entries.deep_view().filter(
            |e: EntryModel| spec_keep_entry(e, is_cd, fragment@, show_all),
        ),
{
    let ghost pred = |e: EntryModel| spec_keep_entry(e, is_cd, fragment@, show_all);
    let ghost dv = entries.deep_view();
    let mut r: Vec<FsEntry> = Vec::new();
    let mut i: usize = 0;
    proof {
        reveal(Seq::filter);
        assert(dv.len() == entries@.len());
        assert(dv.subrange(0, 0) =~= Seq::<EntryModel>::empty());
        assert(r.deep_view() =~= dv.subrange(0, 0).filter(pred));
    }
    while i < entries.len()
        invariant
            i <= entries@.len(),
            dv == entries.deep_view(),
            dv.len() == entries@.len(),
            r.deep_view() == dv.subrange(0, i as int).filter(pred),
        decreases entries@.len() - i,
    {
        let ghost pre = dv.subrange(0, i as int);
        let ghost cur = dv.subrange(0, i as int + 1);
        proof {
            assert(cur.drop_last() =~= pre);
            assert(cur.last() == dv[i as int]);
            assert(dv[i as int] == entries@[i as int].deep_view());
        }
        let e = &entries[i];
        if keep_entry(e, is_cd, fragment, show_all) {
            let copy = FsEntry { name: e.name.clone(), is_dir: e.is_dir };
            let ghost copy_model = copy@;
            let ghost r_pre = r.deep_view();
            proof {
                assert(copy_model == dv[i as int]);
            }
            r.push(copy);
            proof {
                reveal(Seq::filter);
                assert(r.deep_view() =~= r_pre.push(copy_model));
                assert(pred(cur.last()) == spec_keep_entry(cur.last(), is_cd, fragment@, show_all));
                assert(cur.filter(pred) == (if pred(cur.last()) {
                    cur.drop_last().filter(pred).push(cur.last())
                } else {
                    cur.drop_last().filter(pred)
                }));
                assert(cur.filter(pred) == pre.filter(pred).push(cur.last()));
            }
        } else {
            proof {
                reveal(Seq::filter);
                assert(pred(cur.last()) == spec_keep_entry(cur.last(), is_cd, fragment@, show_all));
                assert(cur.filter(pred) == (if pred(cur.last()) {
                    cur.drop_last().filter(pred).push(cur.last())
                } else {
                    cur.drop_last().filter(pred)
                }));
                assert(cur.filter(pred) == pre.filter(pred));
            }
        }
        i = i + 1;
    }
    proof {
        assert(dv.subrange(0, entries@.len() as int) =~= dv);
    }
    r
}

/// `e` inserted into the already sorted `v[i..]`.
fn insert_from(v: &Vec<FsEntry>, e: FsEntry, i: usize) -> (r: Vec<FsEntry>)
    requires
        i <= v@.len(),
    ensures
        r.deep_view() == spec_insert_sorted(
            v.deep_view().subrange(i as int, v.deep_view().len() as int),
            e@,
        ),
    decreases v@.len() - i,
{
    let ghost dv = v.deep_view();
    let ghost tail = dv.subrange(i as int, dv.len() as int);
    proof {
        assert(dv.len() == v@.len());
    }
    if i >= v.len() {
        let ghost e_model = e@;
        let mut r: Vec<FsEntry> = Vec::new();
        r.push(e);
        proof {
            assert(tail.len() == 0);
            assert(r.deep_view() =~= seq![e_model]);
        }
        r
    } else {
        let head = &v[i];
        proof {
            assert(tail[0] == dv[i as int]);
            assert(dv[i as int] == v@[i as int].deep_view());
        }
        if entry_le_exec(head, &e) {
            let ghost e_model = e@;
            let copy = FsEntry { name: head.name.clone(), is_dir: head.is_dir };
            let ghost copy_model = copy@;
            proof {
                assert(copy_model == tail[0]);
            }
            let mut rest = insert_from(v, e, i + 1);
            let ghost rest_dv = rest.deep_view();
            rest.insert(0, copy);
            proof {
                assert(tail.drop_first() =~= dv.subrange(i as int + 1, dv.len() as int));
                assert(rest.deep_view() =~= seq![copy_model] + rest_dv);
                assert(spec_insert_sorted(tail, e_model) == seq![tail[0]] + spec_insert_sorted(
                    tail.drop_first(),
                    e_model,
                ));
            }
            rest
        } else {
            let ghost e_model = e@;
            let mut r: Vec<FsEntry> = Vec::new();
            r.push(e);
            let ghost r_one = r.deep_view();
            proof {
                assert(r_one =~= seq![e_model]);
            }
            let mut j: usize = i;
            while j < v.len()
                invariant
                    i <= j <= v@.len(),
                    dv == v.deep_view(),
                    dv.len() == v@.len(),
                    r.deep_view() == seq![e_model] + dv.subrange(i as int, j as int),
                decreases v@.len() - j,
            {
                let copy = FsEntry { name: v[j].name.clone(), is_dir: v[j].is_dir };
                let ghost copy_model = copy@;
                let ghost r_pre = r.deep_view();
                proof {
                    assert(copy_model == dv[j as int]);
                }
                r.push(copy);
                j = j + 1;
                proof {
                    assert(r.deep_view() =~= r_pre.push(copy_model));
                    assert(r.deep_view() =~= seq![e_model] + dv.subrange(i as int, j as int));
                }
            }
            proof {
                assert(r.deep_view() =~= seq![e_model] + tail);
                assert(spec_insert_sorted(tail, e_model) == seq![e_model] + tail);
            }
            r
        }
    }
}

/// The entries ranked: directories first, then lexicographically by name.
pub fn sort_entries(entries: &Vec<FsEntry>) -> (r: Vec<FsEntry>)
    ensures
        r.deep_view() == spec_sort_entries(entries.deep_view()),
{
    let ghost dv = entries.deep_view();
    let mut out: Vec<FsEntry> = Vec::new();
    let mut i: usize = 0;
    proof {
        assert(dv.len() == entries@.len());
        assert(dv.subrange(0, 0) =~= Seq::<EntryModel>::empty());
        assert(out.deep_view() =~= spec_sort_entries(dv.subrange(0, 0)));
    }
    while i < entries.len()
        invariant
            i <= entries@.len(),
            dv == entries.deep_view(),
            dv.len() == entries@.len(),
            out.deep_view() == spec_sort_entries(dv.subrange(0, i as int)),
        decreases entries@.len() - i,
    {
        let e = FsEntry { name: entries[i].name.clone(), is_dir: entries[i].is_dir };
        let ghost e_model = e@;
        proof {
            assert(e_model == dv[i as int]);
        }
        let next = insert_from(&out, e, 0);
        proof {
            let pre = dv.subrange(0, i as int);
            let cur = dv.subrange(0, i as int + 1);
            assert(cur.drop_last() =~= pre);
            assert(cur.last() == dv[i as int]);
            assert(out.deep_view().subrange(0, out.deep_view().len() as int) =~= out.deep_view());
            assert(next.deep_view() == spec_insert_sorted(spec_sort_entries(pre), e_model));
            assert(next.deep_view() == spec_sort_entries(cur));
        }
        out = next;
        i = i + 1;
    }
    proof {
        assert(dv.subrange(0, entries@.len() as int) =~= dv);
    }
    out
}

/// The directory to search and the fragment to match.
#[derive(Debug)]
pub struct SearchTarget {
    pub directory: String,
    pub fragment: String,
}

/// Resolves the word being completed to a search directory and a name
/// fragment.
pub fn search_target(word: &str, cwd: &str) -> (r: SearchTarget)
    ensures
        r.directory@ == spec_search_split(word@, cwd@).0,
        r.fragment@ == spec_search_split(word@, cwd@).1,
{
    let wc = chars_of(word);
    let cc = chars_of(cwd);
    proof {
        lemma_rfind_props(wc@, '/', wc@.len() as int);
    }
    let has_slash = match rfind_char(&wc, '/', wc.len()) {
        Some(_) => true,
        None => false,
    };
    proof {
        if spec_rfind(wc@, '/', wc@.len() as int) >= 0 {
            assert(wc@.contains('/'));
        } else {
            assert(!wc@.contains('/'));
        }
    }
    if !has_slash {
        SearchTarget { directory: string_of(&cc), fragment: string_of(&wc) }
    } else {
        let path: Vec<char> = if wc.len() > 0 && wc[0] == '/' {
            let p = subvec(&wc, 0, wc.len());
            proof {
                assert(p@ =~= wc@);
            }
            p
        } else if cc.len() > 0 && cc[cc.len() - 1] == '/' {
            vec_concat(&cc, &wc)
        } else {
            let mut base = subvec(&cc, 0, cc.len());
            proof {
                assert(base@ =~= cc@);
            }
            base.push('/');
            let r = vec_concat(&base, &wc);
            proof {
                assert(base@ =~= cc@ + seq!['/']);
                assert(r@ =~= cc@ + seq!['/'] + wc@);
            }
            r
        };
        proof {
            assert(path@ == spec_join_path(cc@, wc@));
        }
        if wc[wc.len() - 1] == '/' {
            let empty_frag = String::new();
            proof {
                assert(empty_frag@ =~= Seq::<char>::empty());
            }
            SearchTarget { directory: string_of(&path), fragment: empty_frag }
        } else {
            proof {
                lemma_rfind_props(path@, '/', path@.len() as int);
                if wc@[0] == '/' {
                    assert(path@[0] == '/');
                } else {
                    let base_len = spec_join_path(cc@, wc@).len() - wc@.len();
                    assert(path@[base_len - 1] == '/');
                }
                assert(exists|j: int| 0 <= j < path@.len() && path@[j] == '/');
                assert(spec_rfind(path@, '/', path@.len() as int) >= 0);
            }
            let k = match rfind_char(&path, '/', path.len()) {
                Some(k) => k,
                None => 0,
            };
            let dir = subvec(&path, 0, k + 1);
            let frag = subvec(&path, k + 1, path.len());
            SearchTarget { directory: string_of(&dir), fragment: string_of(&frag) }
        }
    }
}

/// A suggested continuation of the partial word.
#[derive(Debug)]
pub struct CompletionCandidate {
    /// The text shown in the listing; directories carry a trailing
    /// separator.
    pub display: String,
    /// The exact text that replaces the partial word.
    pub replacement: String,
    pub is_directory: bool,
}

/// The mathematical shape of a candidate.
pub struct CandidateModel {
    pub display: Seq<char>,
    pub replacement: Seq<char>,
    pub is_directory: bool,
}

impl View for CompletionCandidate {
    type V = CandidateModel;

    open spec fn view(&self) -> CandidateModel {
        CandidateModel {
            display: self.display@,
            replacement: self.replacement@,
            is_directory: self.is_directory,
        }
    }
}

impl DeepView for CompletionCandidate {
    type V = CandidateModel;

    open spec fn deep_view(&self) -> CandidateModel {
        self.view()
    }
}

/// The listing text for an entry: its name, with a trailing separator
/// for a directory.
pub open spec fn spec_display(e: EntryModel) -> Seq<char> {
    if e.is_dir {
        e.name + seq!['/']
    } else {
        e.name
    }
}

/// The replacement text for an entry: the entry's name grafted onto the
/// directory portion of the partial word, with a trailing separator for
/// a directory.
pub open spec fn spec_replacement(word: Seq<char>, e: EntryModel) -> Seq<char> {
    let base = if !word.contains('/') {
        e.name
    } else if word.last() == '/' {
        word + e.name
    } else {
        word.subrange(0, spec_rfind(word, '/', word.len() as int) + 1) + e.name
    };
    if e.is_dir {
        base + seq!['/']
    } else {
        base
    }
}

/// The candidate built for an entry.
pub open spec fn spec_candidate(word: Seq<char>, e: EntryModel) -> CandidateModel {
    CandidateModel {
        display: spec_display(e),
        replacement: spec_replacement(word, e),
        is_directory: e.is_dir,
    }
}

#[verifier::loop_isolation(false)]
fn build_candidates(word: &str, entries: &Vec<FsEntry>) -> (r: Vec<CompletionCandidate>)
    ensures
        r.deep_view() == entries.deep_view().map_values(
            |e: EntryModel| spec_candidate(word@, e),
        ),
{
    let ghost f = |e: EntryModel| spec_candidate(word@, e);
    let ghost dv = entries.deep_view();
    let wc = chars_of(word);
    proof {
        lemma_rfind_props(wc@, '/', wc@.len() as int);
    }
    let slash = rfind_char(&wc, '/', wc.len());
    let has_slash = slash.is_some();
    proof {
        if spec_rfind(wc@, '/', wc@.len() as int) >= 0 {
            assert(wc@.contains('/'));
        } else {
            assert(!wc@.contains('/'));
        }
    }
    // the directory portion of the word, kept when the word has a
    // separator and does not end in one
    let graft: Option<Vec<char>> = if !has_slash {
        None
    } else if wc[wc.len() - 1] == '/' {
        let g = subvec(&wc, 0, wc.len());
        proof {
            assert(g@ =~= wc@);
        }
        Some(g)
    } else {
        let k = match slash {
            Some(k) => k,
            None => 0,
        };
        Some(subvec(&wc, 0, k + 1))
    };
    let mut r: Vec<CompletionCandidate> = Vec::new();
    let mut i: usize = 0;
    while i < entries.len()
        invariant
            i <= entries@.len(),
            r.deep_view().len() == i,
            forall|k: int| 0 <= k < i ==> r.deep_view()[k] == f(dv[k]),
        decreases entries@.len() - i,
    {
        let e = &entries[i];
        proof {
            assert(dv[i as int] == entries@[i as int].deep_view());
        }
        let nc = chars_of(e.name.as_str());
        let mut display = e.name.clone();
        if e.is_dir {
            push_char(&mut display, '/');
        }
        proof {
            assert(display@ == spec_display(dv[i as int]));
        }
        let base: Vec<char> = match &graft {
            None => {
                let b = subvec(&nc, 0, nc.len());
                proof {
                    assert(b@ =~= nc@);
                }
                b
            },
            Some(g) => vec_concat(g, &nc),
        };
        let mut replacement = string_of(&base);
        if e.is_dir {
            push_char(&mut replacement, '/');
        }
        proof {
            assert(replacement@ == spec_replacement(word@, dv[i as int]));
        }
        let cand = CompletionCandidate { display, replacement, is_directory: e.is_dir };
        let ghost cand_model = cand@;
        proof {
            assert(cand_model == f(dv[i as int]));
        }
        let ghost r_pre = r.deep_view();
        let ghost old_r_vec = r@;
        r.push(cand);
        i = i + 1;
        proof {
            assert(r.deep_view().len() == r@.len());
            assert forall|k: int| 0 <= k < i implies r.deep_view()[k] == f(dv[k]) by {
                if k < i - 1 {
                    assert(r@[k] == old_r_vec[k]);
                    assert(r_pre[k] == old_r_vec[k].deep_view());
                    assert(r.deep_view()[k] == r@[k].deep_view());
                    assert(r_pre[k] == f(dv[k]));
                } else {
                    assert(r.deep_view()[k] == cand_model);
                }
            }
        }
    }
    proof {
        assert(r.deep_view() =~= dv.map_values(f));
    }
    r
}

/// The filtered entries for a completion request, in ranked order.
pub open spec fn spec_ranked_entries(
    line: Seq<char>,
    pos: int,
    cwd: Seq<char>,
    entries: Seq<EntryModel>,
) -> Seq<EntryModel> {
    let prefix = spec_extract_word(line, pos).0;
    let word = spec_extract_word(line, pos).1;
    let is_cd = spec_is_cd_prefix(prefix);
    let upto = line.subrange(0, pos);
    let show_all = upto.len() > 0 && is_space(upto.last());
    let fragment = spec_search_split(word, cwd).1;
    spec_sort_entries(
        entries.filter(|e: EntryModel| spec_keep_entry(e, is_cd, fragment, show_all)),
    )
}

/// The single candidate for the parent-directory shortcut.
pub open spec fn spec_parent_candidate() -> CandidateModel {
    CandidateModel {
        display: seq!['.', '.', '/'],
        replacement: seq!['.', '.', '/'],
        is_directory: true,
    }
}

/// Everything the engine yields for one request. A partial word that is
/// exactly `..` with an existing parent directory short-circuits to the
/// single parent candidate, whatever the directory holds; otherwise the
/// entries are filtered, ranked and turned into candidates.
pub open spec fn spec_completion(
    line: Seq<char>,
    pos: int,
    cwd: Seq<char>,
    cwd_has_parent: bool,
    entries: Seq<EntryModel>,
) -> Seq<CandidateModel> {
    let word = spec_extract_word(line, pos).1;
    if word == seq!['.', '.'] && cwd_has_parent {
        seq![spec_parent_candidate()]
    } else {
        spec_ranked_entries(line, pos, cwd, entries).map_values(
            |e: EntryModel| spec_candidate(word, e),
        )
    }
}

impl FileCompleter {
    /// The ranked candidates for the line and cursor, given the entries
    /// of the search directory that [`search_target`] names for the
    /// partial word.
    pub fn get_completions(
        &self,
        line: &str,
        pos: usize,
        cwd: &str,
        cwd_has_parent: bool,
        entries: &Vec<FsEntry>,
    ) -> (r: Vec<CompletionCandidate>)
        requires
            pos <= line@.len(),
        ensures
            r.deep_view() == spec_completion(
                line@,
                pos as int,
                cwd@,
                cwd_has_parent,
                entries.deep_view(),
            ),
    {
        let (prefix, word) = self.extract_word(line, pos);
        proof {
            reveal_strlit("..");
            assert(".."@ =~= seq!['.', '.']);
        }
        if crate::strutil::str_eq(word.as_str(), "..") && cwd_has_parent {
            let display = "../".to_owned();
            let replacement = "../".to_owned();
            proof {
                reveal_strlit("../");
                assert("../"@ =~= seq!['.', '.', '/']);
            }
            let cand = CompletionCandidate { display, replacement, is_directory: true };
            let ghost cand_model = cand@;
            proof {
                assert(cand_model == spec_parent_candidate());
            }
            let mut r: Vec<CompletionCandidate> = Vec::new();
            r.push(cand);
            proof {
                assert(r.deep_view() =~= seq![spec_parent_candidate()]);
            }
            r
        } else {
            let prefix_chars = chars_of(prefix.as_str());
            let is_cd = is_cd_prefix(&prefix_chars);
            let cs = chars_of(line);
            let show_all = pos > 0 && is_space_char(cs[pos - 1]);
            proof {
                let upto = line@.subrange(0, pos as int);
                if pos > 0 {
                    assert(upto.last() == line@[pos as int - 1]);
                }
            }
            let target = search_target(word.as_str(), cwd);
            let filtered = filter_entries(entries, is_cd, target.fragment.as_str(), show_all);
            let sorted = sort_entries(&filtered);
            let r = build_candidates(word.as_str(), &sorted);
            proof {
                assert(sorted.deep_view() == spec_ranked_entries(
                    line@,
                    pos as int,
                    cwd@,
                    entries.deep_view(),
                ));
            }
            r
        }
    }
}

/// A partial word of exactly `..`, when the working directory has a
/// parent, yields the single candidate `../`, whatever entries the
/// filesystem holds.
pub proof fn lemma_parent_shortcut(
    line: Seq<char>,
    pos: int,
    cwd: Seq<char>,
    entries: Seq<EntryModel>,
)
    requires
        spec_extract_word(line, pos).1 == seq!['.', '.'],
    ensures
        spec_completion(line, pos, cwd, true, entries) == seq![spec_parent_candidate()],
{
}

/// In a `cd` context every candidate is a directory, whatever the
/// directory's entries are.
pub proof fn lemma_cd_context_only_directories(
    line: Seq<char>,
    pos: int,
    cwd: Seq<char>,
    cwd_has_parent: bool,
    entries: Seq<EntryModel>,
    i: int,
)
    requires
        0 <= pos <= line.len(),
        spec_is_cd_prefix(spec_extract_word(line, pos).0),
        0 <= i < spec_completion(line, pos, cwd, cwd_has_parent, entries).len(),
    ensures
        spec_completion(line, pos, cwd, cwd_has_parent, entries)[i].is_directory,
{
    broadcast use vstd::seq_lib::group_to_multiset_ensures;

    let word = spec_extract_word(line, pos).1;
    if word == seq!['.', '.'] && cwd_has_parent {
    } else {
        let prefix = spec_extract_word(line, pos).0;
        let is_cd = spec_is_cd_prefix(prefix);
        let upto = line.subrange(0, pos);
        let show_all = upto.len() > 0 && is_space(upto.last());
        let fragment = spec_search_split(word, cwd).1;
        let pred = |e: EntryModel| spec_keep_entry(e, is_cd, fragment, show_all);
        let filtered = entries.filter(pred);
        let ranked = spec_sort_entries(filtered);
        assert(spec_completion(line, pos, cwd, cwd_has_parent, entries)[i] == spec_candidate(
            word,
            ranked[i],
        ));
        lemma_sort_entries_membership(filtered, i);
        let w = choose|w: int| 0 <= w < filtered.len() && filtered[w] == ranked[i];
        entries.lemma_filter_pred(pred, w);
        assert(pred(ranked[i]));
    }
}

/// The candidates stand in ranked order: directories before files, and
/// lexicographically by name within each group; they are exactly the
/// entries that survive the filter, each turned into its candidate.
pub proof fn lemma_candidates_ranked(
    line: Seq<char>,
    pos: int,
    cwd: Seq<char>,
    entries: Seq<EntryModel>,
)
    ensures
        spec_entries_sorted(spec_ranked_entries(line, pos, cwd, entries)),
        ({
            let prefix = spec_extract_word(line, pos).0;
            let word = spec_extract_word(line, pos).1;
            let is_cd = spec_is_cd_prefix(prefix);
            let upto = line.subrange(0, pos);
            let show_all = upto.len() > 0 && is_space(upto.last());
            let fragment = spec_search_split(word, cwd).1;
            spec_ranked_entries(line, pos, cwd, entries).to_multiset() == entries.filter(
                |e: EntryModel| spec_keep_entry(e, is_cd, fragment, show_all),
            ).to_multiset()
        }),
{
    let prefix = spec_extract_word(line, pos).0;
    let word = spec_extract_word(line, pos).1;
    let is_cd = spec_is_cd_prefix(prefix);
    let upto = line.subrange(0, pos);
    let show_all = upto.len() > 0 && is_space(upto.last());
    let fragment = spec_search_split(word, cwd).1;
    lemma_sort_entries_ensures(
        entries.filter(|e: EntryModel| spec_keep_entry(e, is_cd, fragment, show_all)),
    );
}

} // verus!
