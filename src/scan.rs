//! The scanner: from a directory listing to the tree of groups, keeping only
//! the subdirectories that hold an index document directly.
use vstd::prelude::*;
use crate::model::{
    dir_model, docs_model, entries_model, entry_model, group_model, groups_model, DirListing,
    DirModel, DocModel, EntryModel, GroupModel, ListingEntry, MdFile, MdGroup,
};
use crate::order::{
    insert_index, lex_le, lemma_sorted_order_agree, lemma_sorted_order_range, names_view, order_view, sort_order,
    sorted_order,
};
use crate::text::{chars_equal, chars_of, find_last, get_title, stem_and_ext, string_of, sub_chars,
    is_doc_ext, title_of,
};

verus! {

broadcast use vstd::seq::group_seq_axioms, vstd::std_specs::vec::group_vec_axioms;

/// The file name of the index document of a directory.
pub open spec fn index_name() -> Seq<char> {
    "README.md"@
}

/// The file name of the generated summary.
pub open spec fn summary_name() -> Seq<char> {
    "SUMMARY.md"@
}

pub open spec fn is_index_entry(e: EntryModel) -> bool {
    match e {
        EntryModel::File { name, .. } => name == index_name(),
        EntryModel::Dir(_) => false,
    }
}

/// Whether one of the entries is the index document.
pub open spec fn has_index(es: Seq<EntryModel>) -> bool
    decreases es.len(),
{
    if es.len() == 0 {
        false
    } else {
        has_index(es.drop_last()) || is_index_entry(es.last())
    }
}

/// The document that an entry stands for, if it is one: a file with the
/// document extension that is neither the index document nor the summary.
pub open spec fn doc_of(e: EntryModel) -> Option<DocModel> {
    match e {
        EntryModel::File { name, path, content } => {
            if name == index_name() || name == summary_name() {
                None
            } else {
                match stem_and_ext(name) {
                    Some((stem, ext)) => if is_doc_ext(ext) {
                        Some(DocModel { name: stem, title: title_of(content), path })
                    } else {
                        None
                    },
                    None => None,
                }
            }
        },
        EntryModel::Dir(_) => None,
    }
}

/// The name of an entry: the base name of the directory or the file.
pub open spec fn entry_name(e: EntryModel) -> Seq<char> {
    match e {
        EntryModel::Dir(d) => d.name,
        EntryModel::File { name, .. } => name,
    }
}

pub open spec fn names_of(es: Seq<EntryModel>) -> Seq<Seq<char>> {
    es.map_values(|e: EntryModel| entry_name(e))
}

/// The order in which the entries are visited: by name.
pub open spec fn name_order(es: Seq<EntryModel>) -> Seq<int> {
    sorted_order(names_of(es), es.len() as int)
}

/// The documents among the entries at the given positions, in that order.
pub open spec fn scan_docs(es: Seq<EntryModel>, idx: Seq<int>) -> Seq<DocModel>
    decreases idx.len(),
{
    if idx.len() == 0 {
        Seq::empty()
    } else {
        let prev = scan_docs(es, idx.drop_last());
        let i = idx.last();
        if 0 <= i < es.len() {
            match doc_of(es[i]) {
                Some(d) => prev.push(d),
                None => prev,
            }
        } else {
            prev
        }
    }
}

/// The group that a directory becomes: its documents and the groups of its
/// subdirectories with an index document, both ordered by name.
pub open spec fn scan_dir(d: DirModel) -> GroupModel
    decreases d, 0int,
{
    GroupModel {
        name: d.name,
        path: d.path,
        has_index: has_index(d.entries),
        groups: scan_groups(d.entries, name_order(d.entries)),
        docs: scan_docs(d.entries, name_order(d.entries)),
    }
}

/// The groups of the subdirectories at the given positions that hold an
/// index document, in that order.
pub open spec fn scan_groups(es: Seq<EntryModel>, idx: Seq<int>) -> Seq<GroupModel>
    decreases es, idx.len(),
{
    if idx.len() == 0 {
        Seq::empty()
    } else {
        let prev = scan_groups(es, idx.drop_last());
        let i = idx.last();
        if 0 <= i < es.len() {
            match es[i] {
                EntryModel::Dir(sub) => if has_index(sub.entries) {
                    prev.push(scan_dir(sub))
                } else {
                    prev
                },
                EntryModel::File { .. } => prev,
            }
        } else {
            prev
        }
    }
}

proof fn lemma_entries_model_index(es: Seq<ListingEntry>)
    ensures
        entries_model(es).len() == es.len(),
        forall|i: int| 0 <= i < es.len() ==> entries_model(es)[i] == entry_model(#[trigger] es[i]),
    decreases es.len(),
{
    if es.len() > 0 {
        lemma_entries_model_index(es.drop_last());
        assert forall|i: int| 0 <= i < es.len() implies entries_model(es)[i] == entry_model(
            #[trigger] es[i],
        ) by {
            if i < es.len() - 1 {
                assert(es.drop_last()[i] == es[i]);
            }
        }
    }
}

fn entry_name_chars(e: &ListingEntry) -> (r: Vec<char>)
    ensures
        r@ == entry_name(entry_model(*e)),
{
    match e {
        ListingEntry::Dir(d) => chars_of(d.name.as_str()),
        ListingEntry::File(f) => chars_of(f.file_name.as_str()),
    }
}

/// The document for a file that is not the index document, if its extension
/// is the document extension.
fn doc_for(f: &crate::model::FileEntry) -> (r: Option<MdFile>)
    requires
        f.file_name@ != index_name(),
        f.file_name@ != summary_name(),
    ensures
        r matches Some(m) ==> doc_of(entry_model(ListingEntry::File(*f))) == Some(m@),
        r is None ==> doc_of(entry_model(ListingEntry::File(*f))) is None,
{
    let cs = chars_of(f.file_name.as_str());
    match find_last(&cs, '.') {
        None => None,
        Some(d) => {
            let stem = sub_chars(&cs, 0, d);
            let ext = sub_chars(&cs, d + 1, cs.len());
            if ext.len() == 2 && (ext[0] == 'm' || ext[0] == 'M') && (ext[1] == 'd' || ext[1] == 'D') {
                let title = get_title(f.content.as_str());
                Some(MdFile { name: string_of(&stem), title, path: f.path.clone() })
            } else {
                None
            }
        },
    }
}

/// Whether a file of this name is a document: neither the index document nor
/// the summary, and with the document extension. Only the text of such files
/// is needed.
pub fn is_doc_name(file_name: &str) -> (r: bool)
    ensures
        r == (file_name@ != index_name() && file_name@ != summary_name() && (stem_and_ext(
            file_name@,
        ) matches Some((_, ext)) && is_doc_ext(ext))),
{
    let cs = chars_of(file_name);
    if chars_equal(&cs, &chars_of("README.md")) || chars_equal(&cs, &chars_of("SUMMARY.md")) {
        return false;
    }
    match find_last(&cs, '.') {
        None => false,
        Some(d) => {
            let ext = sub_chars(&cs, d + 1, cs.len());
            ext.len() == 2 && (ext[0] == 'm' || ext[0] == 'M') && (ext[1] == 'd' || ext[1] == 'D')
        },
    }
}

/// Scans a directory listing into its group: the index document only marks
/// the group, files of other extensions are skipped, a subdirectory is kept
/// only where it holds an index document directly, and entries are visited
/// in the order of their names.
pub fn walk_dir(dir: &DirListing) -> (r: MdGroup)
    ensures
        group_model(r) == scan_dir(dir_model(*dir)),
    decreases dir,
{
    let ghost es = entries_model(dir.entries@);
    proof {
        lemma_entries_model_index(dir.entries@);
    }
    let readme = chars_of("README.md");
    let mut group = MdGroup {
        name: dir.name.clone(),
        path: dir.path.clone(),
        has_readme: false,
        group_list: Vec::new(),
        md_list: Vec::new(),
    };
    let mut names: Vec<Vec<char>> = Vec::new();
    let mut k: usize = 0;
    assert(es.subrange(0, 0) =~= Seq::<EntryModel>::empty());
    while k < dir.entries.len()
        invariant
            k <= dir.entries@.len(),
            es == entries_model(dir.entries@),
            es.len() == dir.entries@.len(),
            forall|i: int| 0 <= i < es.len() ==> es[i] == entry_model(#[trigger] dir.entries@[i]),
            readme@ == index_name(),
            names@.len() == k,
            forall|i: int| 0 <= i < k ==> (#[trigger] names@[i])@ == entry_name(es[i]),
            group.name@ == dir.name@,
            group.path@ == dir.path@,
            group.group_list@.len() == 0,
            group.md_list@.len() == 0,
            group.has_readme == has_index(es.subrange(0, k as int)),
        decreases dir.entries@.len() - k,
    {
        assert(es.subrange(0, k + 1).drop_last() =~= es.subrange(0, k as int));
        assert(es[k as int] == entry_model(dir.entries@[k as int]));
        let name = entry_name_chars(&dir.entries[k]);
        match &dir.entries[k] {
            ListingEntry::File(_) => {
                if chars_equal(&name, &readme) {
                    group.has_readme = true;
                }
            },
            ListingEntry::Dir(_) => {},
        }
        names.push(name);
        k = k + 1;
    }
    assert(es.subrange(0, es.len() as int) =~= es);
    assert(names_view(names@) =~= names_of(es));
    let order = sort_order(&names);
    let ghost ord = order_view(order@);
    assert(ord == name_order(es));
    let mut k: usize = 0;
    assert(groups_model(group.group_list@) =~= scan_groups(es, ord.subrange(0, 0)));
    assert(docs_model(group.md_list@) =~= scan_docs(es, ord.subrange(0, 0)));
    while k < order.len()
        invariant
            k <= order@.len(),
            es == entries_model(dir.entries@),
            es.len() == dir.entries@.len(),
            forall|i: int| 0 <= i < es.len() ==> es[i] == entry_model(#[trigger] dir.entries@[i]),
            ord == order_view(order@),
            forall|q: int| 0 <= q < order@.len() ==> #[trigger] order@[q] < dir.entries@.len(),
            readme@ == index_name(),
            group.name@ == dir.name@,
            group.path@ == dir.path@,
            group.has_readme == has_index(es),
            groups_model(group.group_list@) == scan_groups(es, ord.subrange(0, k as int)),
            docs_model(group.md_list@) == scan_docs(es, ord.subrange(0, k as int)),
        decreases order@.len() - k,
    {
        let j = order[k];
        let ghost prefix = ord.subrange(0, k + 1);
        assert(prefix.drop_last() =~= ord.subrange(0, k as int));
        assert(prefix.last() == j as int);
        assert(es[j as int] == entry_model(dir.entries@[j as int]));
        let ghost old_groups = group.group_list@;
        let ghost old_docs = group.md_list@;
        match &dir.entries[j] {
            ListingEntry::Dir(sub) => {
                let g = walk_dir(sub);
                if g.has_readme {
                    group.group_list.push(g);
                    assert(group.group_list@.drop_last() =~= old_groups);
                }
            },
            ListingEntry::File(f) => {
                let name = chars_of(f.file_name.as_str());
                if !chars_equal(&name, &readme) && !chars_equal(&name, &chars_of("SUMMARY.md")) {
                    match doc_for(f) {
                        Some(m) => {
                            group.md_list.push(m);
                            assert(docs_model(group.md_list@) =~= docs_model(old_docs).push(m@));
                        },
                        None => {},
                    }
                }
            },
        }
        k = k + 1;
    }
    assert(ord.subrange(0, ord.len() as int) =~= ord);
    group
}

/// Every group that the scan keeps under a directory comes from one of its
/// subdirectories that holds an index document directly.
proof fn lemma_groups_from_indexed(es: Seq<EntryModel>, idx: Seq<int>)
    ensures
        forall|k: int|
            #![trigger scan_groups(es, idx)[k]]
            0 <= k < scan_groups(es, idx).len() ==> exists|j: int|
                0 <= j < es.len() && (#[trigger] es[j]) is Dir && has_index(es[j]->Dir_0.entries)
                    && scan_groups(es, idx)[k] == scan_dir(es[j]->Dir_0),
    decreases idx.len(),
{
    if idx.len() > 0 {
        let prev = idx.drop_last();
        lemma_groups_from_indexed(es, prev);
        assert forall|k: int|
            #![trigger scan_groups(es, idx)[k]]
            0 <= k < scan_groups(es, idx).len() implies exists|j: int|
                0 <= j < es.len() && (#[trigger] es[j]) is Dir && has_index(es[j]->Dir_0.entries)
                    && scan_groups(es, idx)[k] == scan_dir(es[j]->Dir_0) by {
            if k < scan_groups(es, prev).len() {
                assert(scan_groups(es, idx)[k] == scan_groups(es, prev)[k]);
            } else {
                let j = idx.last();
                assert(es[j] is Dir);
            }
        }
    }
}

/// Directories without an index document of their own are pruned: every
/// group kept under a directory has its index document and is the group of a
/// subdirectory that holds one, and no subdirectory without one becomes a
/// group, so nothing below it is ever rendered.
pub proof fn lemma_unindexed_dirs_pruned(d: DirModel)
    ensures
        forall|k: int|
            0 <= k < scan_dir(d).groups.len() ==> (#[trigger] scan_dir(d).groups[k]).has_index
                && exists|j: int|
                0 <= j < d.entries.len() && (#[trigger] d.entries[j]) is Dir && has_index(
                    d.entries[j]->Dir_0.entries,
                ) && scan_dir(d).groups[k] == scan_dir(d.entries[j]->Dir_0),
        forall|j: int|
            0 <= j < d.entries.len() && (#[trigger] d.entries[j]) is Dir && !has_index(
                d.entries[j]->Dir_0.entries,
            ) ==> !scan_dir(d).groups.contains(scan_dir(d.entries[j]->Dir_0)),
{
    let idx = name_order(d.entries);
    lemma_groups_from_indexed(d.entries, idx);
    assert(scan_dir(d).groups == scan_groups(d.entries, idx));
    assert forall|k: int| 0 <= k < scan_dir(d).groups.len() implies (#[trigger] scan_dir(
        d,
    ).groups[k]).has_index && exists|j: int|
        0 <= j < d.entries.len() && (#[trigger] d.entries[j]) is Dir && has_index(
            d.entries[j]->Dir_0.entries,
        ) && scan_dir(d).groups[k] == scan_dir(d.entries[j]->Dir_0) by {
        assert(scan_dir(d).groups[k] == scan_groups(d.entries, idx)[k]);
        let j = choose|j: int|
            0 <= j < d.entries.len() && (#[trigger] d.entries[j]) is Dir && has_index(
                d.entries[j]->Dir_0.entries,
            ) && scan_groups(d.entries, idx)[k] == scan_dir(d.entries[j]->Dir_0);
        assert(scan_dir(d.entries[j]->Dir_0).has_index);
    }
}

/// A file that the scan passes over: neither the index document nor a
/// document (the summary, a file without the document extension).
pub open spec fn is_ignored_file(e: EntryModel) -> bool {
    e is File && !is_index_entry(e) && doc_of(e) is None
}

proof fn lemma_has_index_exists(es: Seq<EntryModel>)
    ensures
        has_index(es) <==> exists|i: int| 0 <= i < es.len() && is_index_entry(#[trigger] es[i]),
    decreases es.len(),
{
    if es.len() > 0 {
        let t = es.drop_last();
        lemma_has_index_exists(t);
        if has_index(t) {
            let i = choose|i: int| 0 <= i < t.len() && is_index_entry(#[trigger] t[i]);
            assert(es[i] == t[i]);
        }
        if exists|i: int| 0 <= i < es.len() && is_index_entry(#[trigger] es[i]) {
            let i = choose|i: int| 0 <= i < es.len() && is_index_entry(#[trigger] es[i]);
            if i < t.len() {
                assert(t[i] == es[i]);
            }
        }
    }
}

/// Scanning at positions of `es` gives the same on a listing that holds the
/// same entries there, up to files that the scan passes over.
proof fn lemma_scan_agree(es: Seq<EntryModel>, es2: Seq<EntryModel>, s: Seq<int>)
    requires
        es.len() <= es2.len(),
        forall|i: int|
            0 <= i < es.len() ==> #[trigger] es2[i] == es[i] || (is_ignored_file(es[i])
                && is_ignored_file(es2[i])),
        forall|k: int| 0 <= k < s.len() ==> 0 <= #[trigger] s[k] < es.len(),
    ensures
        scan_docs(es2, s) == scan_docs(es, s),
        scan_groups(es2, s) == scan_groups(es, s),
    decreases s.len(),
{
    if s.len() > 0 {
        let t = s.drop_last();
        assert forall|k: int| 0 <= k < t.len() implies 0 <= #[trigger] t[k] < es.len() by {
            assert(t[k] == s[k]);
        }
        lemma_scan_agree(es, es2, t);
        let i = s[s.len() - 1];
        assert(es2[i] == es[i] || (is_ignored_file(es[i]) && is_ignored_file(es2[i])));
    }
}

/// Placing a file that the scan passes over among the positions changes
/// nothing.
proof fn lemma_insert_ignored(names: Seq<Seq<char>>, es: Seq<EntryModel>, s: Seq<int>, i: int)
    requires
        0 <= i < es.len(),
        is_ignored_file(es[i]),
    ensures
        scan_docs(es, insert_index(names, s, i)) == scan_docs(es, s),
        scan_groups(es, insert_index(names, s, i)) == scan_groups(es, s),
    decreases s.len(),
{
    let r = insert_index(names, s, i);
    if s.len() == 0 {
        assert(r.drop_last() =~= s);
    } else if lex_le(names[s.last()], names[i]) {
        assert(r.drop_last() =~= s);
    } else {
        let t = s.drop_last();
        lemma_insert_ignored(names, es, t, i);
        assert(r.drop_last() == insert_index(names, t, i));
    }
}

/// A file that the scan passes over, added to a listing, leaves its group as
/// it was: the summary written into the source directory, or a file without
/// an extension.
pub proof fn lemma_ignored_file_added(d: DirModel, e: EntryModel)
    requires
        is_ignored_file(e),
    ensures
        scan_dir(DirModel { entries: d.entries.push(e), ..d }) == scan_dir(d),
{
    let es = d.entries;
    let es2 = es.push(e);
    let n = es.len() as int;
    let n1 = names_of(es);
    let n2 = names_of(es2);
    assert(es2.drop_last() =~= es);
    lemma_sorted_order_agree(n2, n1, n);
    let s = sorted_order(n1, n);
    assert(name_order(es2) == insert_index(n2, s, n));
    lemma_insert_ignored(n2, es2, s, n);
    lemma_sorted_order_range(n1, n);
    lemma_scan_agree(es, es2, s);
}

/// A file that the scan passes over, given new content under the same name,
/// leaves the group as it was: the summary rewritten by an earlier run.
pub proof fn lemma_ignored_file_rewritten(d: DirModel, j: int, e: EntryModel)
    requires
        0 <= j < d.entries.len(),
        is_ignored_file(d.entries[j]),
        is_ignored_file(e),
        entry_name(e) == entry_name(d.entries[j]),
    ensures
        scan_dir(DirModel { entries: d.entries.update(j, e), ..d }) == scan_dir(d),
{
    let es = d.entries;
    let es2 = es.update(j, e);
    assert(names_of(es2) =~= names_of(es));
    let s = name_order(es);
    lemma_sorted_order_range(names_of(es), es.len() as int);
    lemma_scan_agree(es, es2, s);
    lemma_has_index_exists(es);
    lemma_has_index_exists(es2);
    if has_index(es) {
        let i = choose|i: int| 0 <= i < es.len() && is_index_entry(#[trigger] es[i]);
        assert(es2[i] == es[i]);
    }
    if has_index(es2) {
        let i = choose|i: int| 0 <= i < es2.len() && is_index_entry(#[trigger] es2[i]);
        assert(es2[i] == es[i]);
    }
}

/// Every group below `g`, at any depth, holds an index document directly.
pub open spec fn indexed_below(g: GroupModel) -> bool
    decreases g,
{
    indexed_all(g.groups)
}

/// Every group of `gs`, and every group below them, holds an index document
/// directly.
pub open spec fn indexed_all(gs: Seq<GroupModel>) -> bool
    decreases gs,
{
    gs.len() == 0 || (indexed_all(gs.drop_last()) && gs.last().has_index && indexed_below(
        gs.last(),
    ))
}

proof fn lemma_scan_groups_indexed(es: Seq<EntryModel>, idx: Seq<int>)
    ensures
        indexed_all(scan_groups(es, idx)),
    decreases es, idx.len(),
{
    if idx.len() > 0 {
        lemma_scan_groups_indexed(es, idx.drop_last());
        let i = idx.last();
        if 0 <= i < es.len() {
            match es[i] {
                EntryModel::Dir(sub) => {
                    if has_index(sub.entries) {
                        lemma_unindexed_pruned_below(sub);
                        let r = scan_groups(es, idx);
                        assert(r.drop_last() =~= scan_groups(es, idx.drop_last()));
                    }
                },
                EntryModel::File { .. } => {},
            }
        }
    }
}

/// Directories without an index document of their own are pruned at every
/// depth: every group anywhere below the scanned directory holds an index
/// document directly, so a directory without one is never a group, and what
/// lies below it is never reached.
pub proof fn lemma_unindexed_pruned_below(d: DirModel)
    ensures
        indexed_below(scan_dir(d)),
    decreases d, 0int,
{
    lemma_scan_groups_indexed(d.entries, name_order(d.entries));
}

} // verus!
