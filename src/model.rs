//! The data of a scan: the listing handed in, the groups and documents built
//! from it, and their mathematical models.
use vstd::prelude::*;
use crate::text::{chars_equal, chars_of};

verus! {

broadcast use vstd::seq::group_seq_axioms, vstd::std_specs::vec::group_vec_axioms;

/// One document found in a directory.
pub struct MdFile {
    /// The file name without its extension.
    pub name: String,
    /// The text of the first top-level heading, or empty.
    pub title: String,
    /// Where the document lies.
    pub path: String,
}

/// One directory of the navigation tree.
pub struct MdGroup {
    pub name: String,
    pub path: String,
    /// Whether an index document lies directly in this directory.
    pub has_readme: bool,
    /// The child directories that hold an index document, in listing order.
    pub group_list: Vec<MdGroup>,
    /// The documents directly in this directory, in listing order.
    pub md_list: Vec<MdFile>,
}

/// The preprocessor itself: it carries no state.
pub struct AutoGenSummary;

/// A file as the caller read it from disk.
pub struct FileEntry {
    /// The base name, extension included.
    pub file_name: String,
    pub path: String,
    /// The full text of the file; left empty for files that are no documents.
    pub content: String,
}

/// One entry of a directory listing.
pub enum ListingEntry {
    Dir(DirListing),
    File(FileEntry),
}

/// A directory as the caller read it from disk, with all its entries.
pub struct DirListing {
    /// The base name of the directory.
    pub name: String,
    pub path: String,
    pub entries: Vec<ListingEntry>,
}

pub ghost struct DocModel {
    pub name: Seq<char>,
    pub title: Seq<char>,
    pub path: Seq<char>,
}

pub ghost struct GroupModel {
    pub name: Seq<char>,
    pub path: Seq<char>,
    pub has_index: bool,
    pub groups: Seq<GroupModel>,
    pub docs: Seq<DocModel>,
}

pub ghost enum EntryModel {
    Dir(DirModel),
    File { name: Seq<char>, path: Seq<char>, content: Seq<char> },
}

pub ghost struct DirModel {
    pub name: Seq<char>,
    pub path: Seq<char>,
    pub entries: Seq<EntryModel>,
}

impl View for MdFile {
    type V = DocModel;

    open spec fn view(&self) -> DocModel {
        DocModel { name: self.name@, title: self.title@, path: self.path@ }
    }
}

pub open spec fn docs_model(ds: Seq<MdFile>) -> Seq<DocModel> {
    ds.map_values(|d: MdFile| d@)
}

pub open spec fn group_model(g: MdGroup) -> GroupModel
    decreases g,
{
    GroupModel {
        name: g.name@,
        path: g.path@,
        has_index: g.has_readme,
        groups: groups_model(g.group_list@),
        docs: docs_model(g.md_list@),
    }
}

pub open spec fn groups_model(gs: Seq<MdGroup>) -> Seq<GroupModel>
    decreases gs,
{
    if gs.len() == 0 {
        Seq::empty()
    } else {
        groups_model(gs.drop_last()).push(group_model(gs.last()))
    }
}

pub open spec fn entry_model(e: ListingEntry) -> EntryModel
    decreases e,
{
    match e {
        ListingEntry::Dir(d) => EntryModel::Dir(dir_model(d)),
        ListingEntry::File(f) => EntryModel::File {
            name: f.file_name@,
            path: f.path@,
            content: f.content@,
        },
    }
}

pub open spec fn dir_model(d: DirListing) -> DirModel
    decreases d,
{
    DirModel { name: d.name@, path: d.path@, entries: entries_model(d.entries@) }
}

pub open spec fn entries_model(es: Seq<ListingEntry>) -> Seq<EntryModel>
    decreases es,
{
    if es.len() == 0 {
        Seq::empty()
    } else {
        entries_model(es.drop_last()).push(entry_model(es.last()))
    }
}

/// Why a run of the preprocessor fails before it scans anything.
#[derive(PartialEq, Eq, Structural, Debug, Clone, Copy)]
pub enum ConfigError {
    /// The configuration asked for a deliberate failure.
    ForcedFailure,
}

impl AutoGenSummary {
    pub fn new() -> (r: AutoGenSummary) {
        AutoGenSummary
    }

    /// The name under which the host knows this preprocessor.
    pub fn name(&self) -> (r: &'static str)
        ensures
            r@ == "auto-gen-summary"@,
    {
        "auto-gen-summary"
    }

    /// Every renderer is supported but the one kept for testing the host.
    pub fn supports_renderer(&self, renderer: &str) -> (r: bool)
        ensures
            r == (renderer@ != "not-supported"@),
    {
        !chars_equal(&chars_of(renderer), &chars_of("not-supported"))
    }

    /// Whether documents are linked by their title, from the preprocessor's
    /// configuration: `blow_up` tells that the key forcing a failure is set,
    /// `first_line_as_link_text` the boolean value of the title option, where
    /// it is set to a boolean. The option defaults to false.
    pub fn link_by_title(&self, blow_up: bool, first_line_as_link_text: Option<bool>) -> (r: Result<
        bool,
        ConfigError,
    >)
        ensures
            blow_up ==> r == Err::<bool, ConfigError>(ConfigError::ForcedFailure),
            !blow_up ==> r == Ok::<bool, ConfigError>(
                first_line_as_link_text == Some(true),
            ),
    {
        if blow_up {
            return Err(ConfigError::ForcedFailure);
        }
        match first_line_as_link_text {
            Some(v) => Ok(v),
            None => Ok(false),
        }
    }
}

} // verus!
