//! The renderer: from the tree of groups to the lines of the summary.
use vstd::prelude::*;
use vstd::string::StringExecFns;
use crate::model::{docs_model, group_model, groups_model, DocModel, GroupModel, MdFile, MdGroup};
use crate::scan::{index_name, summary_name};
use crate::text::{
    chars_end_with, chars_equal, chars_of, chars_start_with, count_char, count_chars, ends_with,
    starts_with, string_of, sub_chars,
};

verus! {

broadcast use vstd::seq::group_seq_axioms, vstd::std_specs::vec::group_vec_axioms;

/// `p` relative to `root`: the root prefix stripped where it is there.
pub open spec fn rel_path(root: Seq<char>, p: Seq<char>) -> Seq<char> {
    if starts_with(p, root) {
        p.subrange(root.len() as int, p.len() as int)
    } else {
        p
    }
}

pub open spec fn spaces(n: nat) -> Seq<char>
    decreases n,
{
    if n == 0 {
        Seq::empty()
    } else {
        spaces((n - 1) as nat).push(' ')
    }
}

/// Four spaces for each level below the root.
pub open spec fn indent_of(rel: Seq<char>) -> Seq<char> {
    spaces(4 * count_char(rel, '/'))
}

/// A list item that links `text` to `target`.
pub open spec fn link_line(indent: Seq<char>, text: Seq<char>, target: Seq<char>) -> Seq<char> {
    indent + "* ["@ + text + "]("@ + target + ")"@
}

/// A root that is the conventional source root is shown under the welcome
/// label.
pub open spec fn display_name(name: Seq<char>) -> Seq<char> {
    if name == "src"@ {
        "Welcome"@
    } else {
        name
    }
}

/// Where the link of a group points: its index document.
pub open spec fn group_target(rel: Seq<char>) -> Seq<char> {
    if rel.len() == 0 {
        index_name()
    } else {
        rel + "/"@ + index_name()
    }
}

/// The lines that open a group: the title at the root, a blank line and a
/// separator at the top level (no separator under the welcome label), then
/// the link to the group's index document. Only the root's name is shown
/// under the welcome label; every other group keeps its own name.
pub open spec fn group_head(root: Seq<char>, g: GroupModel) -> Seq<Seq<char>> {
    let rel = rel_path(root, g.path);
    let name = if rel.len() == 0 {
        display_name(g.name)
    } else {
        g.name
    };
    let title = if rel.len() == 0 {
        seq!["# Summary"@]
    } else {
        Seq::empty()
    };
    let sep = if count_char(rel, '/') == 0 {
        if name == "Welcome"@ {
            seq!["\n"@]
        } else {
            seq!["\n"@, "----"@]
        }
    } else {
        Seq::empty()
    };
    title + sep + seq![link_line(indent_of(rel), name, group_target(rel))]
}

/// Paths that are never listed as documents.
pub open spec fn is_reserved(rel: Seq<char>) -> bool {
    rel == summary_name() || ends_with(rel, index_name())
}

/// The text of a document's link: its title where asked for and present.
pub open spec fn link_text(d: DocModel, use_title: bool) -> Seq<char> {
    if use_title && d.title.len() > 0 {
        d.title
    } else {
        d.name
    }
}

pub open spec fn doc_line(root: Seq<char>, d: DocModel, use_title: bool) -> Seq<char> {
    let rel = rel_path(root, d.path);
    link_line(indent_of(rel), link_text(d, use_title), rel)
}

/// The lines of the documents of a group, reserved paths left out.
pub open spec fn doc_lines(root: Seq<char>, ds: Seq<DocModel>, use_title: bool) -> Seq<Seq<char>>
    decreases ds.len(),
{
    if ds.len() == 0 {
        Seq::empty()
    } else {
        let prev = doc_lines(root, ds.drop_last(), use_title);
        if is_reserved(rel_path(root, ds.last().path)) {
            prev
        } else {
            prev.push(doc_line(root, ds.last(), use_title))
        }
    }
}

/// All lines of a group: its head, its documents, then its subgroups.
pub open spec fn summary_lines(root: Seq<char>, g: GroupModel, use_title: bool) -> Seq<Seq<char>>
    decreases g,
{
    group_head(root, g) + doc_lines(root, g.docs, use_title) + groups_lines(root, g.groups, use_title)
}

pub open spec fn groups_lines(root: Seq<char>, gs: Seq<GroupModel>, use_title: bool) -> Seq<Seq<char>>
    decreases gs,
{
    if gs.len() == 0 {
        Seq::empty()
    } else {
        groups_lines(root, gs.drop_last(), use_title) + summary_lines(root, gs.last(), use_title)
    }
}

pub open spec fn lines_view(v: Seq<String>) -> Seq<Seq<char>> {
    v.map_values(|s: String| s@)
}

/// The number of segments of a `/`-separated path.
pub fn count(s: &String) -> (r: usize)
    requires
        s@.len() < usize::MAX,
    ensures
        r == count_char(s@, '/') + 1,
{
    let cs = chars_of(s.as_str());
    count_chars(&cs, '/') + 1
}

fn extend(out: &mut Vec<char>, s: &Vec<char>)
    ensures
        final(out)@ == old(out)@ + s@,
{
    let mut i: usize = 0;
    let ghost start = out@;
    while i < s.len()
        invariant
            i <= s@.len(),
            out@ == start + s@.subrange(0, i as int),
        decreases s@.len() - i,
    {
        out.push(s[i]);
        i = i + 1;
        assert(out@ =~= start + s@.subrange(0, i as int));
    }
    assert(s@.subrange(0, s@.len() as int) =~= s@);
}

fn rel_path_of(root: &Vec<char>, p: &str) -> (r: Vec<char>)
    ensures
        r@ == rel_path(root@, p@),
{
    let cs = chars_of(p);
    if chars_start_with(&cs, root) {
        sub_chars(&cs, root.len(), cs.len())
    } else {
        cs
    }
}

fn indent_for(rel: &Vec<char>) -> (r: Vec<char>)
    ensures
        r@ == indent_of(rel@),
{
    let mut r: Vec<char> = Vec::new();
    let mut i: usize = 0;
    while i < rel.len()
        invariant
            i <= rel@.len(),
            r@ == spaces(4 * count_char(rel@.subrange(0, i as int), '/')),
        decreases rel@.len() - i,
    {
        let ghost c = count_char(rel@.subrange(0, i as int), '/');
        assert(rel@.subrange(0, i + 1).drop_last() =~= rel@.subrange(0, i as int));
        if rel[i] == '/' {
            r.push(' ');
            r.push(' ');
            r.push(' ');
            r.push(' ');
            assert(spaces(4 * c + 1) == spaces(4 * c).push(' '));
            assert(spaces(4 * c + 2) == spaces(4 * c + 1).push(' '));
            assert(spaces(4 * c + 3) == spaces(4 * c + 2).push(' '));
            assert(spaces(4 * c + 4) == spaces(4 * c + 3).push(' '));
            assert(4 * (c + 1) == 4 * c + 4);
        }
        i = i + 1;
    }
    assert(rel@.subrange(0, rel@.len() as int) =~= rel@);
    r
}

fn make_link(indent: &Vec<char>, text: &Vec<char>, target: &Vec<char>) -> (r: String)
    ensures
        r@ == link_line(indent@, text@, target@),
{
    let mut out: Vec<char> = Vec::new();
    extend(&mut out, indent);
    extend(&mut out, &chars_of("* ["));
    extend(&mut out, text);
    extend(&mut out, &chars_of("]("));
    extend(&mut out, target);
    extend(&mut out, &chars_of(")"));
    assert(out@ =~= link_line(indent@, text@, target@));
    string_of(&out)
}

/// The line of one document, or none where its path is reserved.
fn doc_link(root: &Vec<char>, md: &MdFile, use_title: bool) -> (r: Option<String>)
    ensures
        is_reserved(rel_path(root@, md.path@)) ==> r is None,
        !is_reserved(rel_path(root@, md.path@)) ==> (r matches Some(s) && s@ == doc_line(
            root@,
            md@,
            use_title,
        )),
{
    let rel = rel_path_of(root, md.path.as_str());
    if chars_equal(&rel, &chars_of("SUMMARY.md")) || chars_end_with(&rel, &chars_of("README.md")) {
        return None;
    }
    let indent = indent_for(&rel);
    let title = chars_of(md.title.as_str());
    let text = if use_title && title.len() > 0 {
        title
    } else {
        chars_of(md.name.as_str())
    };
    Some(make_link(&indent, &text, &rel))
}

fn group_head_lines(root: &Vec<char>, group: &MdGroup) -> (r: Vec<String>)
    ensures
        lines_view(r@) == group_head(root@, group_model(*group)),
{
    let rel = rel_path_of(root, group.path.as_str());
    let own = chars_of(group.name.as_str());
    let name = if rel.len() == 0 && chars_equal(&own, &chars_of("src")) {
        chars_of("Welcome")
    } else {
        own
    };
    let mut lines: Vec<String> = Vec::new();
    if rel.len() == 0 {
        lines.push(String::from_str("# Summary"));
    }
    if count_chars(&rel, '/') == 0 {
        lines.push(String::from_str("\n"));
        if !chars_equal(&name, &chars_of("Welcome")) {
            lines.push(String::from_str("----"));
        }
    }
    let target = if rel.len() == 0 {
        chars_of("README.md")
    } else {
        let mut t: Vec<char> = Vec::new();
        extend(&mut t, &rel);
        extend(&mut t, &chars_of("/"));
        extend(&mut t, &chars_of("README.md"));
        t
    };
    let indent = indent_for(&rel);
    lines.push(make_link(&indent, &name, &target));
    assert(lines_view(lines@) =~= group_head(root@, group_model(*group)));
    lines
}

/// The lines of the summary for a group and, after its documents, all of its
/// subgroups, paths taken relative to `root_dir`.
pub fn gen_summary_lines(root_dir: &str, group: &MdGroup, use_first_line_as_link_text: bool) -> (r:
    Vec<String>)
    ensures
        lines_view(r@) == summary_lines(root_dir@, group_model(*group), use_first_line_as_link_text),
    decreases group,
{
    let flag = use_first_line_as_link_text;
    let root = chars_of(root_dir);
    let mut lines = group_head_lines(&root, group);
    let ghost head = lines_view(lines@);
    let mut i: usize = 0;
    assert(group.md_list@.subrange(0, 0) =~= Seq::<MdFile>::empty());
    assert(docs_model(Seq::<MdFile>::empty()) =~= Seq::<DocModel>::empty());
    assert(lines_view(lines@) =~= head + doc_lines(root@, docs_model(group.md_list@.subrange(0, 0)), flag));
    while i < group.md_list.len()
        invariant
            root@ == root_dir@,
            i <= group.md_list@.len(),
            lines_view(lines@) == head + doc_lines(
                root@,
                docs_model(group.md_list@.subrange(0, i as int)),
                flag,
            ),
        decreases group.md_list@.len() - i,
    {
        let ghost before = lines@;
        let ghost ds = docs_model(group.md_list@.subrange(0, i + 1));
        assert(ds.drop_last() =~= docs_model(group.md_list@.subrange(0, i as int)));
        assert(ds.last() == group.md_list@[i as int]@);
        match doc_link(&root, &group.md_list[i], flag) {
            Some(s) => {
                lines.push(s);
                assert(lines_view(lines@) =~= lines_view(before).push(s@));
            },
            None => {},
        }
        i = i + 1;
    }
    assert(group.md_list@.subrange(0, group.md_list@.len() as int) =~= group.md_list@);
    let ghost head_docs = lines_view(lines@);
    let mut j: usize = 0;
    assert(group.group_list@.subrange(0, 0) =~= Seq::<MdGroup>::empty());
    assert(lines_view(lines@) =~= head_docs + groups_lines(
        root@,
        groups_model(group.group_list@.subrange(0, 0)),
        flag,
    ));
    while j < group.group_list.len()
        invariant
            root@ == root_dir@,
            j <= group.group_list@.len(),
            lines_view(lines@) == head_docs + groups_lines(
                root@,
                groups_model(group.group_list@.subrange(0, j as int)),
                flag,
            ),
        decreases group.group_list@.len() - j,
    {
        let ghost before = lines@;
        let ghost gs = group.group_list@.subrange(0, j + 1);
        assert(gs.drop_last() =~= group.group_list@.subrange(0, j as int));
        let ghost gm = groups_model(gs);
        assert(gm.drop_last() =~= groups_model(group.group_list@.subrange(0, j as int)));
        assert(gm.last() == group_model(group.group_list@[j as int]));
        assert(groups_lines(root@, gm, flag) == groups_lines(root@, gm.drop_last(), flag)
            + summary_lines(root@, gm.last(), flag));
        let mut sub = gen_summary_lines(root_dir, &group.group_list[j], flag);
        let ghost sub_lines = sub@;
        lines.append(&mut sub);
        assert(lines_view(lines@) =~= lines_view(before) + lines_view(sub_lines));
        assert(lines_view(lines@) =~= head_docs + groups_lines(root@, gm, flag));
        j = j + 1;
    }
    assert(group.group_list@.subrange(0, group.group_list@.len() as int) =~= group.group_list@);
    assert(lines_view(lines@) =~= summary_lines(root_dir@, group_model(*group), flag));
    lines
}

/// No reserved path is ever listed: every document line comes from a document
/// whose relative path is neither the summary nor ends with the index name.
pub proof fn lemma_reserved_never_listed(root: Seq<char>, ds: Seq<DocModel>, use_title: bool)
    ensures
        forall|k: int|
            #![trigger doc_lines(root, ds, use_title)[k]]
            0 <= k < doc_lines(root, ds, use_title).len() ==> exists|j: int|
                0 <= j < ds.len() && !is_reserved(rel_path(root, (#[trigger] ds[j]).path))
                    && doc_lines(root, ds, use_title)[k] == doc_line(root, ds[j], use_title),
    decreases ds.len(),
{
    if ds.len() > 0 {
        let prev = ds.drop_last();
        lemma_reserved_never_listed(root, prev, use_title);
        assert forall|k: int| #![trigger doc_lines(root, ds, use_title)[k]] 0 <= k < doc_lines(root, ds, use_title).len() implies exists|j: int|
            0 <= j < ds.len() && !is_reserved(rel_path(root, (#[trigger] ds[j]).path))
                && doc_lines(root, ds, use_title)[k] == doc_line(root, ds[j], use_title) by {
            if k < doc_lines(root, prev, use_title).len() {
                let j = choose|j: int|
                    0 <= j < prev.len() && !is_reserved(rel_path(root, (#[trigger] prev[j]).path))
                        && doc_lines(root, prev, use_title)[k] == doc_line(root, prev[j], use_title);
                assert(ds[j] == prev[j]);
            } else {
                assert(ds[ds.len() - 1] == ds.last());
            }
        }
    }
}

/// A document is linked by its title where titles are asked for and it has
/// one, and by its name otherwise.
pub proof fn lemma_title_preference(root: Seq<char>, d: DocModel, use_title: bool)
    ensures
        use_title && d.title.len() > 0 ==> doc_line(root, d, use_title) == link_line(
            indent_of(rel_path(root, d.path)),
            d.title,
            rel_path(root, d.path),
        ),
        !use_title || d.title.len() == 0 ==> doc_line(root, d, use_title) == link_line(
            indent_of(rel_path(root, d.path)),
            d.name,
            rel_path(root, d.path),
        ),
{
}

/// A document with its title cleared.
pub open spec fn untitled_doc(d: DocModel) -> DocModel {
    DocModel { title: Seq::empty(), ..d }
}

/// The tree with the title of every document, at every level, cleared.
pub open spec fn untitled(g: GroupModel) -> GroupModel
    decreases g,
{
    GroupModel {
        docs: g.docs.map_values(|d: DocModel| untitled_doc(d)),
        groups: untitled_all(g.groups),
        ..g
    }
}

pub open spec fn untitled_all(gs: Seq<GroupModel>) -> Seq<GroupModel>
    decreases gs,
{
    if gs.len() == 0 {
        Seq::empty()
    } else {
        untitled_all(gs.drop_last()).push(untitled(gs.last()))
    }
}

/// The documents whose relative paths are not reserved.
pub open spec fn listed_docs(root: Seq<char>, ds: Seq<DocModel>) -> Seq<DocModel>
    decreases ds.len(),
{
    if ds.len() == 0 {
        Seq::empty()
    } else if is_reserved(rel_path(root, ds.last().path)) {
        listed_docs(root, ds.drop_last())
    } else {
        listed_docs(root, ds.drop_last()).push(ds.last())
    }
}

/// The tree with every document at a reserved path, at every level, removed.
pub open spec fn unreserved(root: Seq<char>, g: GroupModel) -> GroupModel
    decreases g,
{
    GroupModel { docs: listed_docs(root, g.docs), groups: unreserved_all(root, g.groups), ..g }
}

pub open spec fn unreserved_all(root: Seq<char>, gs: Seq<GroupModel>) -> Seq<GroupModel>
    decreases gs,
{
    if gs.len() == 0 {
        Seq::empty()
    } else {
        unreserved_all(root, gs.drop_last()).push(unreserved(root, gs.last()))
    }
}

proof fn lemma_doc_lines_untitled(root: Seq<char>, ds: Seq<DocModel>)
    ensures
        doc_lines(root, ds, false) == doc_lines(
            root,
            ds.map_values(|d: DocModel| untitled_doc(d)),
            false,
        ),
    decreases ds.len(),
{
    if ds.len() > 0 {
        let t = ds.drop_last();
        lemma_doc_lines_untitled(root, t);
        let m = ds.map_values(|d: DocModel| untitled_doc(d));
        assert(m.drop_last() =~= t.map_values(|d: DocModel| untitled_doc(d)));
        assert(m.last() == untitled_doc(ds.last()));
    }
}

/// Where titles are not asked for, they do not matter: clearing every title
/// in the tree leaves the summary as it was, so every document is linked by
/// its name.
pub proof fn lemma_titles_unused(root: Seq<char>, g: GroupModel)
    ensures
        summary_lines(root, g, false) == summary_lines(root, untitled(g), false),
    decreases g,
{
    lemma_doc_lines_untitled(root, g.docs);
    lemma_titles_unused_all(root, g.groups);
}

/// Clearing every title under a sequence of groups leaves their lines as
/// they were, where titles are not asked for.
pub proof fn lemma_titles_unused_all(root: Seq<char>, gs: Seq<GroupModel>)
    ensures
        groups_lines(root, gs, false) == groups_lines(root, untitled_all(gs), false),
    decreases gs,
{
    if gs.len() > 0 {
        lemma_titles_unused_all(root, gs.drop_last());
        lemma_titles_unused(root, gs.last());
        let u = untitled_all(gs);
        assert(u.drop_last() =~= untitled_all(gs.drop_last()));
    }
}

proof fn lemma_doc_lines_listed(root: Seq<char>, ds: Seq<DocModel>, use_title: bool)
    ensures
        doc_lines(root, ds, use_title) == doc_lines(root, listed_docs(root, ds), use_title),
        forall|k: int|
            0 <= k < listed_docs(root, ds).len() ==> !is_reserved(
                rel_path(root, (#[trigger] listed_docs(root, ds)[k]).path),
            ),
    decreases ds.len(),
{
    if ds.len() > 0 {
        let t = ds.drop_last();
        lemma_doc_lines_listed(root, t, use_title);
        let l = listed_docs(root, ds);
        if !is_reserved(rel_path(root, ds.last().path)) {
            assert(l.drop_last() =~= listed_docs(root, t));
            assert forall|k: int| 0 <= k < l.len() implies !is_reserved(
                rel_path(root, (#[trigger] l[k]).path),
            ) by {
                if k < l.len() - 1 {
                    assert(l[k] == listed_docs(root, t)[k]);
                }
            }
        }
    }
}

/// No document at a reserved path is ever listed, at any level: removing all
/// of them from the tree leaves the summary as it was, and what remains holds
/// no reserved path.
pub proof fn lemma_reserved_never_rendered(root: Seq<char>, g: GroupModel, use_title: bool)
    ensures
        summary_lines(root, g, use_title) == summary_lines(root, unreserved(root, g), use_title),
        forall|k: int|
            0 <= k < unreserved(root, g).docs.len() ==> !is_reserved(
                rel_path(root, (#[trigger] unreserved(root, g).docs[k]).path),
            ),
    decreases g,
{
    lemma_doc_lines_listed(root, g.docs, use_title);
    lemma_reserved_never_rendered_all(root, g.groups, use_title);
}

/// Removing the documents at reserved paths under a sequence of groups leaves
/// their lines as they were.
pub proof fn lemma_reserved_never_rendered_all(
    root: Seq<char>,
    gs: Seq<GroupModel>,
    use_title: bool,
)
    ensures
        groups_lines(root, gs, use_title) == groups_lines(root, unreserved_all(root, gs), use_title),
    decreases gs,
{
    if gs.len() > 0 {
        lemma_reserved_never_rendered_all(root, gs.drop_last(), use_title);
        lemma_reserved_never_rendered(root, gs.last(), use_title);
        let u = unreserved_all(root, gs);
        assert(u.drop_last() =~= unreserved_all(root, gs.drop_last()));
    }
}

} // verus!
