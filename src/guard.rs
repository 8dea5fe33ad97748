//! The persistence guard: the summary text of a tree, and the decision to
//! write it, made on the fingerprints of the old and the new text.
use vstd::prelude::*;
use vstd::string::StringExecFns;
use vstd::utf8::encode_utf8;
use crate::model::{dir_model, DirListing, DirModel, EntryModel};
use crate::render::{gen_summary_lines, lines_view, summary_lines};
use crate::scan::{
    index_name, is_ignored_file, lemma_ignored_file_added, lemma_ignored_file_rewritten, scan_dir,
    summary_name, walk_dir,
};
use crate::text::{chars_end_with, chars_of, ends_with, string_of};

verus! {

broadcast use vstd::seq::group_seq_axioms, vstd::std_specs::vec::group_vec_axioms;

/// The MD5 digest of a byte sequence.
pub uninterp spec fn md5_of(data: Seq<u8>) -> Seq<u8>;

/// Relies on md-5's `Md5` through `Digest::digest`: the MD5 digest of `data`,
/// which is 16 bytes long.
#[verifier::external_body]
fn md5_digest(data: &[u8]) -> (r: Vec<u8>)
    ensures
        r@ == md5_of(data@),
        r@.len() == 16,
{
    <md5::Md5 as md5::Digest>::digest(data).to_vec()
}

/// The uppercase hexadecimal digit of a value below sixteen.
pub open spec fn hex_digit(n: int) -> char {
    seq!['0', '1', '2', '3', '4', '5', '6', '7', '8', '9', 'A', 'B', 'C', 'D', 'E', 'F'][n]
}

/// Two uppercase hexadecimal digits for each byte, the high half first.
pub open spec fn hex_upper(b: Seq<u8>) -> Seq<char>
    decreases b.len(),
{
    if b.len() == 0 {
        Seq::empty()
    } else {
        hex_upper(b.drop_last()) + seq![hex_digit(b.last() as int / 16), hex_digit(b.last() as int % 16)]
    }
}

/// Relies on `hex::encode_upper`: two uppercase digits for each byte, the high
/// half first.
#[verifier::external_body]
fn encode_upper(b: &[u8]) -> (r: String)
    ensures
        r@ == hex_upper(b@),
{
    hex::encode_upper(b)
}

/// The fingerprint of a text: the MD5 digest of its UTF-8 bytes, in hex.
pub open spec fn fingerprint_of(s: Seq<char>) -> Seq<char> {
    hex_upper(md5_of(encode_utf8(s)))
}

/// Two digits for each byte.
proof fn lemma_hex_upper_len(b: Seq<u8>)
    ensures
        hex_upper(b).len() == 2 * b.len(),
    decreases b.len(),
{
    if b.len() > 0 {
        lemma_hex_upper_len(b.drop_last());
    }
}

/// The fingerprint of a text: 32 hexadecimal digits.
pub fn md5(buf: &String) -> (r: String)
    ensures
        r@ == fingerprint_of(buf@),
        r@.len() == 32,
{
    let digest = md5_digest(buf.as_str().as_bytes());
    proof {
        lemma_hex_upper_len(digest@);
    }
    encode_upper(digest.as_slice())
}

/// Whether a file that holds `old` has to be written to hold `new`.
pub open spec fn writes(old: Seq<char>, new: Seq<char>) -> bool {
    fingerprint_of(new) != fingerprint_of(old)
}

/// What the file holds after the guard has run.
pub open spec fn content_after(old: Seq<char>, new: Seq<char>) -> Seq<char> {
    if writes(old, new) {
        new
    } else {
        old
    }
}

/// Whether two fingerprints differ.
pub fn fingerprints_differ(old_fingerprint: &String, new_fingerprint: &String) -> (r: bool)
    ensures
        r == (old_fingerprint@ != new_fingerprint@),
{
    !new_fingerprint.eq(old_fingerprint)
}

/// Whether the summary file, holding `old_content`, has to be overwritten with
/// `new_content`: only where their fingerprints differ.
pub fn needs_write(old_content: &String, new_content: &String) -> (r: bool)
    ensures
        r == writes(old_content@, new_content@),
{
    let new_md5 = md5(new_content);
    let old_md5 = md5(old_content);
    fingerprints_differ(&old_md5, &new_md5)
}

/// The lines joined by newlines, with no newline at the end.
pub open spec fn join_lines(ls: Seq<Seq<char>>) -> Seq<char>
    decreases ls.len(),
{
    if ls.len() == 0 {
        Seq::empty()
    } else if ls.len() == 1 {
        ls[0]
    } else {
        join_lines(ls.drop_last()) + "\n"@ + ls.last()
    }
}

/// The source directory with a slash at its end.
pub open spec fn with_slash(dir: Seq<char>) -> Seq<char> {
    if ends_with(dir, "/"@) {
        dir
    } else {
        dir + "/"@
    }
}

/// The summary text of a tree, paths relative to the source directory.
pub open spec fn summary_text_of(source_dir: Seq<char>, d: DirModel, use_title: bool) -> Seq<char> {
    join_lines(summary_lines(with_slash(source_dir), scan_dir(d), use_title))
}

/// The source directory with a slash at its end; the listing of the tree is
/// read from this path.
pub fn normalize_dir(source_dir: &String) -> (r: String)
    ensures
        r@ == with_slash(source_dir@),
{
    let cs = chars_of(source_dir.as_str());
    let slash = chars_of("/");
    let r = string_of(&cs);
    if chars_end_with(&cs, &slash) {
        r
    } else {
        r.concat("/")
    }
}

pub fn join(lines: &Vec<String>) -> (r: String)
    ensures
        r@ == join_lines(lines_view(lines@)),
{
    let mut out: Vec<char> = Vec::new();
    let mut i: usize = 0;
    let nl = chars_of("\n");
    while i < lines.len()
        invariant
            i <= lines@.len(),
            nl@ == "\n"@,
            out@ == join_lines(lines_view(lines@.subrange(0, i as int))),
        decreases lines@.len() - i,
    {
        let ghost before = out@;
        let ghost ls = lines_view(lines@.subrange(0, i + 1));
        assert(ls.drop_last() =~= lines_view(lines@.subrange(0, i as int)));
        if i > 0 {
            let mut k: usize = 0;
            while k < nl.len()
                invariant
                    k <= nl@.len(),
                    out@ == before + nl@.subrange(0, k as int),
                decreases nl@.len() - k,
            {
                out.push(nl[k]);
                k = k + 1;
                assert(out@ =~= before + nl@.subrange(0, k as int));
            }
            assert(nl@.subrange(0, nl@.len() as int) =~= nl@);
        }
        let line = chars_of(lines[i].as_str());
        let ghost mid = out@;
        let mut k: usize = 0;
        while k < line.len()
            invariant
                k <= line@.len(),
                out@ == mid + line@.subrange(0, k as int),
            decreases line@.len() - k,
        {
            out.push(line[k]);
            k = k + 1;
            assert(out@ =~= mid + line@.subrange(0, k as int));
        }
        assert(line@.subrange(0, line@.len() as int) =~= line@);
        if i == 0 {
            assert(out@ =~= join_lines(ls));
        } else {
            assert(out@ =~= join_lines(ls));
        }
        i = i + 1;
    }
    assert(lines@.subrange(0, lines@.len() as int) =~= lines@);
    string_of(&out)
}

/// The summary text of the tree listed in `dir`, read from the source
/// directory `source_dir`, documents linked by their title where
/// `use_first_line_as_link_text` asks for it.
pub fn summary_text(source_dir: &String, dir: &DirListing, use_first_line_as_link_text: bool) -> (r:
    String)
    ensures
        r@ == summary_text_of(source_dir@, dir_model(*dir), use_first_line_as_link_text),
{
    let root = normalize_dir(source_dir);
    let group = walk_dir(dir);
    let lines = gen_summary_lines(root.as_str(), &group, use_first_line_as_link_text);
    join(&lines)
}

/// Running the guard a second time with the same new text writes nothing:
/// after the first run the file holds a text with the new text's fingerprint.
pub proof fn lemma_second_run_writes_nothing(old: Seq<char>, new: Seq<char>)
    ensures
        !writes(content_after(old, new), new),
{
}

/// The summary file itself: the scan passes over it, whatever it holds.
pub open spec fn summary_entry(path: Seq<char>, content: Seq<char>) -> EntryModel {
    EntryModel::File { name: summary_name(), path, content }
}

proof fn lemma_summary_entry_ignored(path: Seq<char>, content: Seq<char>)
    ensures
        is_ignored_file(summary_entry(path, content)),
{
    reveal_strlit("SUMMARY.md");
    reveal_strlit("README.md");
    assert(summary_name()[0] != index_name()[0]);
}

/// Two runs over an unchanged tree whose source directory held no summary:
/// the second run lists the summary that the first one wrote, and writes
/// nothing.
pub proof fn lemma_rerun_after_first_write(
    source_dir: Seq<char>,
    d: DirModel,
    use_title: bool,
    path: Seq<char>,
)
    ensures
        ({
            let text = summary_text_of(source_dir, d, use_title);
            let written = content_after(Seq::empty(), text);
            let again = DirModel { entries: d.entries.push(summary_entry(path, written)), ..d };
            content_after(written, summary_text_of(source_dir, again, use_title)) == written
                && !writes(written, summary_text_of(source_dir, again, use_title))
        }),
{
    let text = summary_text_of(source_dir, d, use_title);
    let written = content_after(Seq::empty(), text);
    lemma_summary_entry_ignored(path, written);
    lemma_ignored_file_added(d, summary_entry(path, written));
    lemma_second_run_writes_nothing(Seq::empty(), text);
}

/// Two runs over an unchanged tree whose source directory holds the summary
/// at position `j` of its listing: the second run lists the summary as the
/// first one left it, and writes nothing.
pub proof fn lemma_rerun_over_summary(
    source_dir: Seq<char>,
    d: DirModel,
    use_title: bool,
    j: int,
    path: Seq<char>,
    old: Seq<char>,
)
    requires
        0 <= j < d.entries.len(),
        d.entries[j] == summary_entry(path, old),
    ensures
        ({
            let text = summary_text_of(source_dir, d, use_title);
            let left = content_after(old, text);
            let again = DirModel { entries: d.entries.update(j, summary_entry(path, left)), ..d };
            content_after(left, summary_text_of(source_dir, again, use_title)) == left
                && !writes(left, summary_text_of(source_dir, again, use_title))
        }),
{
    let text = summary_text_of(source_dir, d, use_title);
    let left = content_after(old, text);
    lemma_summary_entry_ignored(path, old);
    lemma_summary_entry_ignored(path, left);
    lemma_ignored_file_rewritten(d, j, summary_entry(path, left));
    lemma_second_run_writes_nothing(old, text);
}

} // verus!
