//! A folder of snippets mirroring one directory of the filesystem.
//!
//! Callers list the directory tree into [`FsEntry`] values and hand them
//! to [`SnippetFolder::load_names`]; the folder keeps one snippet per
//! file with the snippet extension and one child folder per
//! subdirectory, each collection sorted by path.

use crate::order::insert_by_path;
use crate::order::lemma_insert_by_path_at;
use crate::order::lex_le;
use crate::order::sort_by_path;
use crate::order::sort_strings;
use crate::order::sorted_by_path;
use crate::order::str_le;
use crate::snippet::blank_snippet;
use crate::snippet::is_snip_filename;
use crate::snippet::is_snip_path;
use crate::snippet::parsed_snippet;
use crate::snippet::Snippet;
use crate::snippet::SnippetError;
use crate::snippet::SnippetModel;
use vstd::prelude::*;

verus! {

/// One entry of a directory listing: a file, or a subdirectory with its
/// own listing. Paths are the full paths of the entries.
pub enum FsEntry {
    File { path: String },
    Folder { path: String, entries: Vec<FsEntry> },
}

/// The mathematical value of an [`FsEntry`].
pub enum EntryModel {
    File { path: Seq<char> },
    Folder { path: Seq<char>, entries: Seq<EntryModel> },
}

/// A directory of snippet files, with one child per subdirectory.
pub struct SnippetFolder {
    pub root_path: String,
    pub snippets: Vec<Snippet>,
    pub sub_folders: Vec<SnippetFolder>,
}

/// The mathematical value of a [`SnippetFolder`].
pub struct FolderModel {
    pub root_path: Seq<char>,
    pub snippets: Seq<SnippetModel>,
    pub children: Seq<FolderModel>,
}

/// The model of one listing entry.
pub open spec fn entry_model(e: FsEntry) -> EntryModel
    decreases e, 1int,
{
    match e {
        FsEntry::File { path } => EntryModel::File { path: path@ },
        FsEntry::Folder { path, entries } => EntryModel::Folder {
            path: path@,
            entries: entry_models(entries@),
        },
    }
}

/// The models of a sequence of listing entries, in order.
pub open spec fn entry_models(es: Seq<FsEntry>) -> Seq<EntryModel>
    decreases es, 0int,
{
    if es.len() == 0 {
        Seq::empty()
    } else {
        seq![entry_model(es[0])] + entry_models(es.drop_first())
    }
}

/// The model of one folder.
pub open spec fn folder_model(f: SnippetFolder) -> FolderModel
    decreases f, 1int,
{
    FolderModel {
        root_path: f.root_path@,
        snippets: f.snippets@.map_values(|s: Snippet| s@),
        children: folder_models(f.sub_folders@),
    }
}

/// The models of a sequence of folders, in order.
pub open spec fn folder_models(fs: Seq<SnippetFolder>) -> Seq<FolderModel>
    decreases fs, 0int,
{
    if fs.len() == 0 {
        Seq::empty()
    } else {
        seq![folder_model(fs[0])] + folder_models(fs.drop_first())
    }
}

impl View for SnippetFolder {
    type V = FolderModel;

    open spec fn view(&self) -> FolderModel {
        folder_model(*self)
    }
}

/// Taking models commutes with indexing.
pub proof fn lemma_folder_models_index(fs: Seq<SnippetFolder>)
    ensures
        folder_models(fs).len() == fs.len(),
        forall|i: int| 0 <= i < fs.len() ==> folder_models(fs)[i] == folder_model(fs[i]),
    decreases fs.len(),
{
    if fs.len() > 0 {
        lemma_folder_models_index(fs.drop_first());
        assert forall|i: int| 0 <= i < fs.len() implies folder_models(fs)[i] == folder_model(
            fs[i],
        ) by {
            if i > 0 {
                assert(folder_models(fs)[i] == folder_models(fs.drop_first())[i - 1]);
                assert(fs.drop_first()[i - 1] == fs[i]);
            }
        }
    }
}

/// Taking models commutes with indexing.
pub proof fn lemma_entry_models_index(es: Seq<FsEntry>)
    ensures
        entry_models(es).len() == es.len(),
        forall|i: int| 0 <= i < es.len() ==> entry_models(es)[i] == entry_model(es[i]),
    decreases es.len(),
{
    if es.len() > 0 {
        lemma_entry_models_index(es.drop_first());
        assert forall|i: int| 0 <= i < es.len() implies entry_models(es)[i] == entry_model(
            es[i],
        ) by {
            if i > 0 {
                assert(entry_models(es)[i] == entry_models(es.drop_first())[i - 1]);
                assert(es.drop_first()[i - 1] == es[i]);
            }
        }
    }
}

/// The snippet-file paths a single entry contributes to its directory: its
/// own path when it is a file with the snippet extension, nothing
/// otherwise.
pub open spec fn entry_snip_paths(e: EntryModel) -> Seq<Seq<char>> {
    match e {
        EntryModel::File { path } => if is_snip_path(path) {
            seq![path]
        } else {
            Seq::empty()
        },
        EntryModel::Folder { .. } => Seq::empty(),
    }
}

/// The paths of the snippet files directly in a listing, in listing order.
pub open spec fn snip_file_paths(entries: Seq<EntryModel>) -> Seq<Seq<char>>
    decreases entries.len(),
{
    if entries.len() == 0 {
        Seq::empty()
    } else {
        snip_file_paths(entries.drop_last()) + entry_snip_paths(entries.last())
    }
}

/// The folders discovered from the subdirectories of a listing, in
/// listing order.
pub open spec fn discovered_children(entries: Seq<EntryModel>) -> Seq<FolderModel>
    decreases entries, 0int,
{
    if entries.len() == 0 {
        Seq::empty()
    } else {
        discovered_children(entries.drop_last()) + (match entries.last() {
            EntryModel::Folder { path, entries: sub } => seq![spec_discover(path, sub)],
            EntryModel::File { .. } => Seq::empty(),
        })
    }
}

/// Unloaded snippets at the given paths, in the given order.
pub open spec fn blank_snippets(paths: Seq<Seq<char>>) -> Seq<SnippetModel> {
    paths.map_values(|p: Seq<char>| blank_snippet(p))
}

/// Taking snippet models commutes with appending.
proof fn lemma_snippet_models_push(vs: Seq<Snippet>, x: Snippet)
    ensures
        vs.push(x).map_values(|s: Snippet| s@) == vs.map_values(|s: Snippet| s@).push(x@),
{
    let a = vs.push(x).map_values(|s: Snippet| s@);
    let b = vs.map_values(|s: Snippet| s@).push(x@);
    assert forall|m: int| 0 <= m < a.len() implies a[m] == b[m] by {
        if m < vs.len() {
            assert(vs.push(x)[m] == vs[m]);
        } else {
            assert(vs.push(x)[m] == x);
        }
    }
    assert(a =~= b);
}

/// Making blank snippets commutes with appending.
proof fn lemma_blank_snippets_push(ps: Seq<Seq<char>>, x: Seq<char>)
    ensures
        blank_snippets(ps.push(x)) == blank_snippets(ps).push(blank_snippet(x)),
{
    let a = blank_snippets(ps.push(x));
    let b = blank_snippets(ps).push(blank_snippet(x));
    assert forall|m: int| 0 <= m < a.len() implies a[m] == b[m] by {
        if m < ps.len() {
            assert(ps.push(x)[m] == ps[m]);
        } else {
            assert(ps.push(x)[m] == x);
        }
    }
    assert(a =~= b);
}

/// The lines of one file, keyed by the file's path: what the caller reads
/// from disk and hands to [`SnippetFolder::load_snippets`].
pub struct FileLines {
    pub path: String,
    pub lines: Vec<String>,
}

/// The mathematical value of a [`FileLines`].
pub struct FileModel {
    pub path: Seq<char>,
    pub lines: Seq<Seq<char>>,
}

impl View for FileLines {
    type V = FileModel;

    open spec fn view(&self) -> FileModel {
        FileModel { path: self.path@, lines: self.lines.deep_view() }
    }
}

/// The models of a sequence of files.
pub open spec fn file_models(fs: Seq<FileLines>) -> Seq<FileModel> {
    fs.map_values(|f: FileLines| f@)
}

/// The lines of the first file in `files` whose path is `p`, if any.
pub open spec fn find_lines(files: Seq<FileModel>, p: Seq<char>) -> Option<Seq<Seq<char>>>
    decreases files.len(),
{
    if files.len() == 0 {
        None
    } else if files[0].path == p {
        Some(files[0].lines)
    } else {
        find_lines(files.drop_first(), p)
    }
}

/// A search can start past any prefix without a match.
proof fn lemma_find_lines_skip(files: Seq<FileModel>, p: Seq<char>, i: int)
    requires
        0 <= i <= files.len(),
        forall|k: int| 0 <= k < i ==> files[k].path != p,
    ensures
        find_lines(files, p) == find_lines(files.skip(i), p),
    decreases i,
{
    if i > 0 {
        lemma_find_lines_skip(files.drop_first(), p, i - 1);
        assert(files.drop_first().skip(i - 1) =~= files.skip(i));
    } else {
        assert(files.skip(0) =~= files);
    }
}

/// The lines recorded in `files` for the path of `p`, if any entry
/// carries that path; the first such entry wins.
fn find_lines_exec<'a>(files: &'a Vec<FileLines>, p: &String) -> (r: Option<&'a Vec<String>>)
    ensures
        match r {
            Some(lines) => find_lines(file_models(files@), p@) == Some(lines.deep_view()),
            None => find_lines(file_models(files@), p@) is None,
        },
{
    let ghost models = file_models(files@);
    let mut i: usize = 0;
    proof {
        assert(models.len() == files@.len());
    }
    while i < files.len()
        invariant
            i <= files@.len(),
            models == file_models(files@),
            models.len() == files@.len(),
            forall|k: int| 0 <= k < i ==> models[k].path != p@,
        decreases files@.len() - i,
    {
        if files[i].path == *p {
            proof {
                lemma_find_lines_skip(models, p@, i as int);
                assert(models.skip(i as int)[0] == models[i as int]);
                assert(models[i as int] == files@[i as int]@);
                assert(models.skip(i as int).len() > 0);
            }
            return Some(&files[i].lines);
        }
        proof {
            assert(models[i as int] == files@[i as int]@);
        }
        i = i + 1;
    }
    proof {
        lemma_find_lines_skip(models, p@, i as int);
        assert(models.skip(i as int) =~= Seq::<FileModel>::empty());
    }
    None
}

/// What a snippet becomes when the files are loaded: parsed from the
/// lines recorded for its path, or left as it is when no entry carries
/// that path.
pub open spec fn loaded_snippet(s: SnippetModel, files: Seq<FileModel>) -> SnippetModel {
    match find_lines(files, s.path) {
        Some(lines) => parsed_snippet(s.path, lines),
        None => s,
    }
}

/// What a folder becomes when every snippet in it and under it is loaded
/// from `files`. The structure and all paths stay as they are.
pub open spec fn spec_loaded(f: FolderModel, files: Seq<FileModel>) -> FolderModel
    decreases f, 1int,
{
    FolderModel {
        root_path: f.root_path,
        snippets: f.snippets.map_values(|s: SnippetModel| loaded_snippet(s, files)),
        children: loaded_children(f.children, files),
    }
}

/// The counterpart of [`spec_loaded`] for child sequences.
pub open spec fn loaded_children(cs: Seq<FolderModel>, files: Seq<FileModel>) -> Seq<FolderModel>
    decreases cs, 0int,
{
    if cs.len() == 0 {
        Seq::empty()
    } else {
        loaded_children(cs.drop_last(), files).push(spec_loaded(cs.last(), files))
    }
}

/// Loading commutes with indexing into the children.
proof fn lemma_loaded_children_index(cs: Seq<FolderModel>, files: Seq<FileModel>)
    ensures
        loaded_children(cs, files).len() == cs.len(),
        forall|w: int| 0 <= w < cs.len() ==> loaded_children(cs, files)[w] == spec_loaded(
            cs[w],
            files,
        ),
    decreases cs, 0int,
{
    if cs.len() > 0 {
        lemma_loaded_children_index(cs.drop_last(), files);
        assert forall|w: int| 0 <= w < cs.len() implies loaded_children(cs, files)[w]
            == spec_loaded(cs[w], files) by {
            if w < cs.len() - 1 {
                assert(cs.drop_last()[w] == cs[w]);
            }
        }
    }
}

/// Every snippet of `f`, and of every folder under it, has an entry in
/// `files` for its path.
pub open spec fn spec_all_present(f: FolderModel, files: Seq<FileModel>) -> bool
    decreases f, 1int,
{
    &&& forall|i: int| 0 <= i < f.snippets.len() ==> find_lines(files, f.snippets[i].path)
        is Some
    &&& children_all_present(f.children, files)
}

/// The counterpart of [`spec_all_present`] for child sequences.
pub open spec fn children_all_present(cs: Seq<FolderModel>, files: Seq<FileModel>) -> bool
    decreases cs, 0int,
{
    if cs.len() == 0 {
        true
    } else {
        children_all_present(cs.drop_last(), files) && spec_all_present(cs.last(), files)
    }
}

/// All children are covered exactly when each one is.
proof fn lemma_children_all_present_index(cs: Seq<FolderModel>, files: Seq<FileModel>)
    ensures
        children_all_present(cs, files) <==> (forall|w: int|
            0 <= w < cs.len() ==> spec_all_present(#[trigger] cs[w], files)),
    decreases cs, 0int,
{
    if cs.len() > 0 {
        lemma_children_all_present_index(cs.drop_last(), files);
        assert forall|w: int| 0 <= w < cs.len() - 1 implies cs.drop_last()[w] == cs[w] by {}
        if children_all_present(cs, files) {
            assert forall|w: int| 0 <= w < cs.len() implies spec_all_present(
                #[trigger] cs[w],
                files,
            ) by {
                if w < cs.len() - 1 {
                    assert(cs[w] == cs.drop_last()[w]);
                } else {
                    assert(cs[w] == cs.last());
                }
            }
        } else {
            if !children_all_present(cs.drop_last(), files) {
                let w = choose|w: int|
                    0 <= w < cs.drop_last().len() && !spec_all_present(
                        #[trigger] cs.drop_last()[w],
                        files,
                    );
                assert(cs[w] == cs.drop_last()[w]);
                assert(!spec_all_present(cs[w], files));
            } else {
                assert(!spec_all_present(cs.last(), files));
            }
        }
    }
}

/// An empty folder at `root`.
pub open spec fn blank_folder(root: Seq<char>) -> FolderModel {
    FolderModel { root_path: root, snippets: Seq::empty(), children: Seq::empty() }
}

/// What discovering names at `root` over the listing `entries` yields:
/// one unloaded snippet per snippet file, sorted by path; one child per
/// subdirectory, recursively discovered and sorted by root path. The
/// result depends on nothing but `root` and `entries`.
pub open spec fn spec_discover(root: Seq<char>, entries: Seq<EntryModel>) -> FolderModel
    decreases entries, 1int,
{
    FolderModel {
        root_path: root,
        snippets: blank_snippets(sort_by_path((|p: Seq<char>| p), snip_file_paths(entries))),
        children: sort_by_path((|c: FolderModel| c.root_path), discovered_children(entries)),
    }
}

/// How many snippets a folder holds, its descendants included.
pub open spec fn spec_count(f: FolderModel) -> nat
    decreases f, 1int,
{
    f.snippets.len() + count_children(f.children)
}

/// The total snippet count of a sequence of folders.
pub open spec fn count_children(cs: Seq<FolderModel>) -> nat
    decreases cs, 0int,
{
    if cs.len() == 0 {
        0
    } else {
        count_children(cs.drop_last()) + spec_count(cs.last())
    }
}

/// The paths of the snippets of a folder and of all its descendants, in
/// tree order: the folder's own snippets first, then each child's paths
/// in turn.
pub open spec fn all_paths(f: FolderModel) -> Seq<Seq<char>>
    decreases f, 1int,
{
    f.snippets.map_values(|s: SnippetModel| s.path) + children_paths(f.children)
}

/// The paths under a sequence of folders, in order.
pub open spec fn children_paths(cs: Seq<FolderModel>) -> Seq<Seq<char>>
    decreases cs, 0int,
{
    if cs.len() == 0 {
        Seq::empty()
    } else {
        children_paths(cs.drop_last()) + all_paths(cs.last())
    }
}

/// Counting one more child adds that child's count.
proof fn lemma_count_children_step(cs: Seq<FolderModel>, i: int)
    requires
        0 <= i < cs.len(),
    ensures
        count_children(cs.subrange(0, i + 1)) == count_children(cs.subrange(0, i))
            + spec_count(cs[i]),
{
    assert(cs.subrange(0, i + 1).drop_last() =~= cs.subrange(0, i));
    assert(cs.subrange(0, i + 1).last() == cs[i]);
}

/// A prefix of children never counts more than the whole.
proof fn lemma_count_children_prefix(cs: Seq<FolderModel>, i: int)
    requires
        0 <= i <= cs.len(),
    ensures
        count_children(cs.subrange(0, i)) <= count_children(cs),
    decreases cs.len() - i,
{
    if i == cs.len() {
        assert(cs.subrange(0, i) =~= cs);
    } else {
        lemma_count_children_step(cs, i);
        lemma_count_children_prefix(cs, i + 1);
    }
}

/// Listing one more child appends that child's paths.
proof fn lemma_children_paths_step(cs: Seq<FolderModel>, i: int)
    requires
        0 <= i < cs.len(),
    ensures
        children_paths(cs.subrange(0, i + 1)) == children_paths(cs.subrange(0, i)) + all_paths(
            cs[i],
        ),
{
    assert(cs.subrange(0, i + 1).drop_last() =~= cs.subrange(0, i));
    assert(cs.subrange(0, i + 1).last() == cs[i]);
}

/// A folder holds exactly one snippet per path it lists: the recursive
/// count equals the length of the recursive path listing, sorted or not.
pub proof fn lemma_count_matches_paths(f: FolderModel)
    ensures
        spec_count(f) == all_paths(f).len(),
        spec_count(f) == sort_by_path((|p: Seq<char>| p), all_paths(f)).len(),
    decreases f, 1int,
{
    lemma_count_matches_paths_children(f.children);
    crate::order::lemma_sort_by_path_props((|p: Seq<char>| p), all_paths(f));
}

/// The counterpart of [`lemma_count_matches_paths`] for child sequences.
proof fn lemma_count_matches_paths_children(cs: Seq<FolderModel>)
    ensures
        count_children(cs) == children_paths(cs).len(),
    decreases cs, 0int,
{
    if cs.len() > 0 {
        lemma_count_matches_paths_children(cs.drop_last());
        lemma_count_matches_paths(cs.last());
    }
}

/// Discovery is idempotent: what it yields depends on nothing but the
/// root path and the listing, and it keeps the root path, so discovering
/// again from a discovered folder over an unchanged listing gives the
/// identical structure.
pub proof fn lemma_discover_idempotent(root: Seq<char>, entries: Seq<EntryModel>)
    ensures
        spec_discover(spec_discover(root, entries).root_path, entries) == spec_discover(
            root,
            entries,
        ),
{
}

/// A discovered folder is ordered: its snippets ascend by path and its
/// children by root path.
pub proof fn lemma_discover_sorted(root: Seq<char>, entries: Seq<EntryModel>)
    ensures
        sorted_by_path(
            (|s: SnippetModel| s.path),
            spec_discover(root, entries).snippets,
        ),
        sorted_by_path(
            (|c: FolderModel| c.root_path),
            spec_discover(root, entries).children,
        ),
{
    let key = (|p: Seq<char>| p);
    let skey = (|s: SnippetModel| s.path);
    let fkey = (|c: FolderModel| c.root_path);
    let raw = snip_file_paths(entries);
    let sorted = sort_by_path(key, raw);
    crate::order::lemma_sort_by_path_props(key, raw);
    crate::order::lemma_sort_by_path_props(fkey, discovered_children(entries));
    let snips = spec_discover(root, entries).snippets;
    assert forall|i: int, j: int| 0 <= i < j < snips.len() implies lex_le(
        skey(snips[i]),
        skey(snips[j]),
    ) by {
        assert(snips[i] == blank_snippet(sorted[i]));
        assert(snips[j] == blank_snippet(sorted[j]));
        assert(lex_le(key(sorted[i]), key(sorted[j])));
    }
}

/// Every path listed under `f` names a snippet file.
pub open spec fn paths_all_snip(f: FolderModel) -> bool {
    forall|i: int| 0 <= i < all_paths(f).len() ==> is_snip_path(#[trigger] all_paths(f)[i])
}

/// The snippet-file paths of a listing all carry the snippet extension.
proof fn lemma_snip_file_paths_snip(entries: Seq<EntryModel>)
    ensures
        forall|i: int|
            0 <= i < snip_file_paths(entries).len() ==> is_snip_path(
                #[trigger] snip_file_paths(entries)[i],
            ),
    decreases entries.len(),
{
    if entries.len() > 0 {
        lemma_snip_file_paths_snip(entries.drop_last());
        let whole = snip_file_paths(entries);
        let prefix = snip_file_paths(entries.drop_last());
        assert forall|i: int| 0 <= i < whole.len() implies is_snip_path(
            #[trigger] whole[i],
        ) by {
            if i < prefix.len() {
                assert(whole[i] == prefix[i]);
            } else {
                assert(whole[i] == entry_snip_paths(entries.last())[i - prefix.len()]);
            }
        }
    }
}

/// Paths under folders that each list only snippet files again all name
/// snippet files.
proof fn lemma_children_paths_snip(cs: Seq<FolderModel>)
    requires
        forall|w: int| 0 <= w < cs.len() ==> paths_all_snip(#[trigger] cs[w]),
    ensures
        forall|i: int|
            0 <= i < children_paths(cs).len() ==> is_snip_path(
                #[trigger] children_paths(cs)[i],
            ),
    decreases cs.len(),
{
    if cs.len() > 0 {
        assert forall|w: int| 0 <= w < cs.drop_last().len() implies paths_all_snip(
            #[trigger] cs.drop_last()[w],
        ) by {
            assert(cs.drop_last()[w] == cs[w]);
        }
        lemma_children_paths_snip(cs.drop_last());
        assert(paths_all_snip(cs.last()));
        let whole = children_paths(cs);
        let prefix = children_paths(cs.drop_last());
        assert forall|i: int| 0 <= i < whole.len() implies is_snip_path(
            #[trigger] whole[i],
        ) by {
            if i < prefix.len() {
                assert(whole[i] == prefix[i]);
            } else {
                assert(whole[i] == all_paths(cs.last())[i - prefix.len()]);
            }
        }
    }
}

/// Each folder discovered from the subdirectories of a listing lists only
/// snippet files.
proof fn lemma_discovered_children_all_snip(entries: Seq<EntryModel>)
    ensures
        forall|w: int|
            0 <= w < discovered_children(entries).len() ==> paths_all_snip(
                #[trigger] discovered_children(entries)[w],
            ),
    decreases entries, 0int,
{
    if entries.len() > 0 {
        lemma_discovered_children_all_snip(entries.drop_last());
        let whole = discovered_children(entries);
        let prefix = discovered_children(entries.drop_last());
        match entries.last() {
            EntryModel::Folder { path, entries: sub } => {
                lemma_discovered_paths_are_snip(path, sub);
                assert forall|w: int| 0 <= w < whole.len() implies paths_all_snip(
                    #[trigger] whole[w],
                ) by {
                    if w < prefix.len() {
                        assert(whole[w] == prefix[w]);
                    } else {
                        assert(whole[w] == spec_discover(path, sub));
                    }
                }
            }
            EntryModel::File { .. } => {
                assert forall|w: int| 0 <= w < whole.len() implies paths_all_snip(
                    #[trigger] whole[w],
                ) by {
                    assert(whole[w] == prefix[w]);
                }
            }
        }
    }
}

/// Discovery keeps only snippet files: whatever the listing holds, every
/// path under the discovered folder — its own snippets and those of all
/// descendants — carries the snippet extension. Files with another
/// extension, or none, appear nowhere.
pub proof fn lemma_discovered_paths_are_snip(root: Seq<char>, entries: Seq<EntryModel>)
    ensures
        paths_all_snip(spec_discover(root, entries)),
    decreases entries, 1int,
{
    broadcast use vstd::seq_lib::group_to_multiset_ensures;

    let d = spec_discover(root, entries);
    let key = (|p: Seq<char>| p);
    let fkey = (|c: FolderModel| c.root_path);
    let raw = snip_file_paths(entries);
    let sorted = sort_by_path(key, raw);
    lemma_snip_file_paths_snip(entries);
    crate::order::lemma_sort_by_path_props(key, raw);
    assert forall|i: int| 0 <= i < sorted.len() implies is_snip_path(#[trigger] sorted[i]) by {
        assert(sorted.to_multiset().count(sorted[i]) > 0);
        assert(raw.to_multiset().count(sorted[i]) > 0);
        assert(raw.contains(sorted[i]));
        let v = choose|v: int| 0 <= v < raw.len() && raw[v] == sorted[i];
        assert(is_snip_path(raw[v]));
    }
    let dc = discovered_children(entries);
    let sorted_children = sort_by_path(fkey, dc);
    lemma_discovered_children_all_snip(entries);
    crate::order::lemma_sort_by_path_props(fkey, dc);
    assert forall|w: int| 0 <= w < sorted_children.len() implies paths_all_snip(
        #[trigger] sorted_children[w],
    ) by {
        assert(sorted_children.to_multiset().count(sorted_children[w]) > 0);
        assert(dc.to_multiset().count(sorted_children[w]) > 0);
        assert(dc.contains(sorted_children[w]));
        let v = choose|v: int| 0 <= v < dc.len() && dc[v] == sorted_children[w];
        assert(paths_all_snip(dc[v]));
    }
    lemma_children_paths_snip(d.children);
    assert forall|i: int| 0 <= i < all_paths(d).len() implies is_snip_path(
        #[trigger] all_paths(d)[i],
    ) by {
        let own = d.snippets.map_values(|s: SnippetModel| s.path);
        if i < own.len() {
            assert(all_paths(d)[i] == own[i]);
            assert(own[i] == d.snippets[i].path);
            assert(d.snippets[i] == blank_snippet(sorted[i]));
        } else {
            assert(all_paths(d)[i] == children_paths(d.children)[i - own.len()]);
        }
    }
}

/// The position in `r` at which folder `x` belongs: the index of the
/// first folder whose root path is above that of `x`, so that folders
/// with equal root paths stay in front.
fn folder_insert_pos(x: &SnippetFolder, r: &Vec<SnippetFolder>) -> (j: usize)
    ensures
        j <= r@.len(),
        forall|k: int| 0 <= k < j ==> lex_le(r@[k].root_path@, x.root_path@),
        j < r@.len() ==> !lex_le(r@[j as int].root_path@, x.root_path@),
{
    let mut j: usize = 0;
    while j < r.len()
        invariant
            j <= r@.len(),
            forall|k: int| 0 <= k < j ==> lex_le(r@[k].root_path@, x.root_path@),
        decreases r@.len() - j,
    {
        if !str_le(r[j].root_path.as_str(), x.root_path.as_str()) {
            return j;
        }
        j = j + 1;
    }
    j
}

/// `v` rearranged in ascending order of root path.
fn sort_folders(v: Vec<SnippetFolder>) -> (r: Vec<SnippetFolder>)
    ensures
        folder_models(r@) == sort_by_path(
            (|c: FolderModel| c.root_path),
            folder_models(v@),
        ),
{
    let ghost orig = v@;
    let mut v = v;
    let mut out: Vec<SnippetFolder> = Vec::new();
    let ghost mut i: int = 0;
    proof {
        assert(v@ =~= orig.skip(0));
        assert(folder_models(out@) =~= Seq::<FolderModel>::empty());
        assert(folder_models(orig.subrange(0, 0)) =~= Seq::<FolderModel>::empty());
    }
    while v.len() > 0
        invariant
            0 <= i <= orig.len(),
            i + v@.len() == orig.len(),
            v@ == orig.skip(i),
            folder_models(out@) == sort_by_path(
                (|c: FolderModel| c.root_path),
                folder_models(orig.subrange(0, i)),
            ),
        decreases v@.len(),
    {
        let x = v.remove(0);
        proof {
            assert(x == orig[i]);
            assert(v@ =~= orig.skip(i + 1));
        }
        let j = folder_insert_pos(&x, &out);
        let ghost prev = folder_models(out@);
        let ghost prev_vec = out@;
        proof {
            let key = (|c: FolderModel| c.root_path);
            lemma_folder_models_index(prev_vec);
            assert forall|k: int| 0 <= k < j implies lex_le(key(prev[k]), key(folder_model(x))) by {
                assert(prev[k] == folder_model(prev_vec[k]));
            }
            if j < prev.len() {
                assert(prev[j as int] == folder_model(prev_vec[j as int]));
            }
            lemma_insert_by_path_at(key, folder_model(x), prev, j as int);
        }
        out.insert(j, x);
        proof {
            let key = (|c: FolderModel| c.root_path);
            lemma_folder_models_index(out@);
            assert(out@ == prev_vec.insert(j as int, x));
            assert forall|k: int| 0 <= k < out@.len() implies folder_models(out@)[k] == insert_by_path(
                key,
                folder_model(x),
                prev,
            )[k] by {
                lemma_folder_models_index(prev_vec);
                if k < j {
                    assert(out@[k] == prev_vec[k]);
                } else if k == j {
                    assert(out@[k] == x);
                } else {
                    assert(out@[k] == prev_vec[k - 1]);
                }
            }
            assert(folder_models(out@) =~= insert_by_path(key, folder_model(x), prev));
            // one more element of `orig` is in place
            let upto = folder_models(orig.subrange(0, i + 1));
            lemma_folder_models_index(orig.subrange(0, i + 1));
            lemma_folder_models_index(orig.subrange(0, i));
            assert(upto.drop_last() =~= folder_models(orig.subrange(0, i)));
            assert(upto.last() == folder_model(orig[i]));
            assert(sort_by_path(key, upto) == insert_by_path(
                key,
                upto.last(),
                sort_by_path(key, upto.drop_last()),
            ));
            i = i + 1;
        }
    }
    proof {
        assert(orig.subrange(0, i) =~= orig);
    }
    out
}

/// `f` with every snippet under it parsed from the lines recorded for
/// its path in `files`.
fn loaded_folder(f: SnippetFolder, files: &Vec<FileLines>) -> (r: SnippetFolder)
    requires
        spec_all_present(f@, file_models(files@)),
    ensures
        r@ == spec_loaded(f@, file_models(files@)),
    decreases f,
{
    let ghost fm = f@;
    let ghost models = file_models(files@);
    let SnippetFolder { root_path, mut snippets, mut sub_folders } = f;
    let ghost orig_sn = snippets@;
    let ghost orig_sub = sub_folders@;
    proof {
        assert(fm.snippets == orig_sn.map_values(|s: Snippet| s@));
        assert(fm.children == folder_models(orig_sub));
        assert(snippets@ =~= orig_sn.skip(0));
    }
    let mut new_snips: Vec<Snippet> = Vec::new();
    let ghost mut i: int = 0;
    while snippets.len() > 0
        invariant
            0 <= i,
            i + snippets@.len() == orig_sn.len(),
            snippets@ == orig_sn.skip(i),
            models == file_models(files@),
            fm.snippets == orig_sn.map_values(|s: Snippet| s@),
            spec_all_present(fm, models),
            new_snips@.len() == i,
            forall|k: int| 0 <= k < i ==> #[trigger] new_snips@[k]@ == loaded_snippet(
                fm.snippets[k],
                models,
            ),
        decreases snippets@.len(),
    {
        let mut s = snippets.remove(0);
        proof {
            assert(orig_sn.skip(i)[0] == orig_sn[i]);
            assert(s == orig_sn[i]);
            assert(snippets@ =~= orig_sn.skip(i + 1));
            assert(fm.snippets[i] == orig_sn[i]@);
            assert(find_lines(models, s@.path) is Some);
        }
        let found = find_lines_exec(files, &s.absolute_path);
        let lines = found.unwrap();
        let ghost lines_view = lines.deep_view();
        s.load_from_lines(lines);
        new_snips.push(s);
        proof {
            assert(new_snips@[i]@ == parsed_snippet(fm.snippets[i].path, lines_view));
            assert(find_lines(models, fm.snippets[i].path) == Some(lines_view));
            assert(loaded_snippet(fm.snippets[i], models) == parsed_snippet(
                fm.snippets[i].path,
                lines_view,
            ));
            i = i + 1;
        }
    }
    let mut new_subs: Vec<SnippetFolder> = Vec::new();
    let ghost mut j: int = 0;
    proof {
        lemma_folder_models_index(orig_sub);
        lemma_children_all_present_index(fm.children, models);
        assert(sub_folders@ =~= orig_sub.skip(0));
    }
    while sub_folders.len() > 0
        invariant
            0 <= j,
            j + sub_folders@.len() == orig_sub.len(),
            sub_folders@ == orig_sub.skip(j),
            f.sub_folders@ == orig_sub,
            models == file_models(files@),
            fm.children == folder_models(orig_sub),
            fm.children.len() == orig_sub.len(),
            forall|w: int| 0 <= w < fm.children.len() ==> spec_all_present(
                #[trigger] fm.children[w],
                models,
            ),
            new_subs@.len() == j,
            forall|w: int| 0 <= w < j ==> #[trigger] new_subs@[w]@ == spec_loaded(
                fm.children[w],
                models,
            ),
        decreases sub_folders@.len(),
    {
        let c = sub_folders.remove(0);
        proof {
            assert(orig_sub.skip(j)[0] == orig_sub[j]);
            assert(c == orig_sub[j]);
            assert(sub_folders@ =~= orig_sub.skip(j + 1));
            lemma_folder_models_index(orig_sub);
            assert(fm.children[j] == c@);
            assert(decreases_to!(f => f.sub_folders));
            assert(decreases_to!(f.sub_folders => f.sub_folders@));
            assert(f.sub_folders@ == orig_sub);
            assert(decreases_to!(f.sub_folders@ => f.sub_folders@[j]));
            assert(f.sub_folders@[j] == c);
        }
        let c2 = loaded_folder(c, files);
        let ghost before = new_subs@;
        new_subs.push(c2);
        proof {
            assert(new_subs@[j] == c2);
            assert forall|w: int| 0 <= w < j + 1 implies #[trigger] new_subs@[w]@
                == spec_loaded(fm.children[w], models) by {
                if w < j {
                    assert(new_subs@[w] == before[w]);
                }
            }
            j = j + 1;
        }
    }
    let r = SnippetFolder { root_path, snippets: new_snips, sub_folders: new_subs };
    proof {
        let target = spec_loaded(fm, models);
        assert(r@.root_path == fm.root_path);
        assert forall|k: int| 0 <= k < orig_sn.len() implies r@.snippets[k]
            == target.snippets[k] by {
            assert(r@.snippets[k] == new_snips@[k]@);
            assert(target.snippets[k] == loaded_snippet(fm.snippets[k], models));
        }
        assert(r@.snippets.len() == orig_sn.len());
        assert(target.snippets.len() == orig_sn.len());
        assert(r@.snippets =~= target.snippets);
        lemma_loaded_children_index(fm.children, models);
        lemma_folder_models_index(new_subs@);
        assert forall|w: int| 0 <= w < orig_sub.len() implies r@.children[w]
            == target.children[w] by {
            assert(r@.children[w] == new_subs@[w]@);
            assert(target.children[w] == spec_loaded(fm.children[w], models));
        }
        assert(r@.children =~= target.children);
        assert(r@ =~= target);
    }
    r
}

impl SnippetFolder {
    /// An empty folder rooted at `root_path`.
    pub fn new(root_path: &str) -> (f: SnippetFolder)
        ensures
            f@ == blank_folder(root_path@),
    {
        let f = SnippetFolder {
            root_path: root_path.to_owned(),
            snippets: Vec::new(),
            sub_folders: Vec::new(),
        };
        proof {
            assert(f@.snippets =~= Seq::<SnippetModel>::empty());
            assert(f@.children =~= Seq::<FolderModel>::empty());
            assert(f@ =~= blank_folder(root_path@));
        }
        f
    }

    /// Rebuilds this folder from a listing of its directory: one unloaded
    /// snippet per file with the snippet extension, one child per
    /// subdirectory, recursively; snippets sorted by path and children by
    /// root path. Only the root path of the folder is kept; whatever was
    /// discovered before is replaced, so discovering twice over the same
    /// listing gives the same structure.
    pub fn load_names(&mut self, entries: &Vec<FsEntry>)
        ensures
            final(self)@ == spec_discover(old(self)@.root_path, entry_models(entries@)),
        decreases entries@,
    {
        let mut file_paths: Vec<String> = Vec::new();
        let mut children: Vec<SnippetFolder> = Vec::new();
        let n = entries.len();
        let mut i: usize = 0;
        proof {
            assert(file_paths.deep_view() =~= Seq::<Seq<char>>::empty());
            assert(snip_file_paths(entry_models(entries@.subrange(0, 0)))
                =~= Seq::<Seq<char>>::empty());
            assert(folder_models(children@) =~= Seq::<FolderModel>::empty());
            assert(discovered_children(entry_models(entries@.subrange(0, 0)))
                =~= Seq::<FolderModel>::empty());
        }
        while i < n
            invariant
                i <= n,
                n == entries@.len(),
                file_paths.deep_view() == snip_file_paths(
                    entry_models(entries@.subrange(0, i as int)),
                ),
                folder_models(children@) == discovered_children(
                    entry_models(entries@.subrange(0, i as int)),
                ),
            decreases n - i,
        {
            let ghost upto = entry_models(entries@.subrange(0, i + 1));
            proof {
                lemma_entry_models_index(entries@.subrange(0, i + 1));
                lemma_entry_models_index(entries@.subrange(0, i as int));
                assert(upto.drop_last() =~= entry_models(entries@.subrange(0, i as int)));
                assert(upto.last() == entry_model(entries@[i as int]));
            }
            match &entries[i] {
                FsEntry::File { path } => {
                    let ghost before = file_paths.deep_view();
                    if is_snip_filename(path.as_str()) {
                        file_paths.push(path.clone());
                        proof {
                            assert(file_paths.deep_view() =~= before.push(path@));
                            assert(entry_snip_paths(upto.last()) =~= seq![path@]);
                            assert(before.push(path@) =~= before + seq![path@]);
                        }
                    } else {
                        proof {
                            assert(entry_snip_paths(upto.last()) =~= Seq::<Seq<char>>::empty());
                            assert(before + Seq::<Seq<char>>::empty() =~= before);
                        }
                    }
                    proof {
                        assert(folder_models(children@) + Seq::<FolderModel>::empty()
                            =~= folder_models(children@));
                    }
                }
                FsEntry::Folder { path, entries: sub } => {
                    let mut child = SnippetFolder::new(path.as_str());
                    proof {
                        assert(decreases_to!(entries@ => entries@[i as int]));
                        assert(decreases_to!(entries@[i as int] => entries@[i as int]->Folder_entries));
                        assert(entries@[i as int]->Folder_entries == *sub);
                        assert(decreases_to!(*sub => sub@));
                    }
                    child.load_names(sub);
                    let ghost before = folder_models(children@);
                    let ghost before_vec = children@;
                    children.push(child);
                    proof {
                        lemma_folder_models_index(children@);
                        lemma_folder_models_index(before_vec);
                        assert(children@ == before_vec.push(child));
                        assert forall|k: int| 0 <= k < children@.len() implies folder_models(
                            children@,
                        )[k] == before.push(child@)[k] by {
                            if k < before_vec.len() {
                                assert(children@[k] == before_vec[k]);
                            } else {
                                assert(children@[k] == child);
                            }
                        }
                        assert(folder_models(children@) =~= before.push(child@));
                        assert(child@ == spec_discover(path@, entry_models(sub@)));
                        assert(upto.last() == EntryModel::Folder {
                            path: path@,
                            entries: entry_models(sub@),
                        });
                        assert(before.push(child@) =~= before + seq![child@]);
                        assert(file_paths.deep_view() + Seq::<Seq<char>>::empty()
                            =~= file_paths.deep_view());
                        assert(entry_snip_paths(upto.last()) =~= Seq::<Seq<char>>::empty());
                    }
                }
            }
            i = i + 1;
        }
        proof {
            assert(entries@.subrange(0, n as int) =~= entries@);
        }
        let sorted_paths = sort_strings(file_paths);
        let mut snips: Vec<Snippet> = Vec::new();
        let mut k: usize = 0;
        proof {
            assert(snips@.map_values(|s: Snippet| s@) =~= Seq::<SnippetModel>::empty());
            assert(blank_snippets(sorted_paths.deep_view().subrange(0, 0))
                =~= Seq::<SnippetModel>::empty());
        }
        while k < sorted_paths.len()
            invariant
                k <= sorted_paths@.len(),
                snips@.map_values(|s: Snippet| s@) == blank_snippets(
                    sorted_paths.deep_view().subrange(0, k as int),
                ),
            decreases sorted_paths@.len() - k,
        {
            let ghost before_vec = snips@;
            let s = Snippet::new(sorted_paths[k].as_str());
            snips.push(s);
            proof {
                let dv = sorted_paths.deep_view();
                assert(dv[k as int] == sorted_paths@[k as int]@);
                assert(s@ == blank_snippet(dv[k as int]));
                lemma_snippet_models_push(before_vec, s);
                lemma_blank_snippets_push(dv.subrange(0, k as int), dv[k as int]);
                assert(dv.subrange(0, k + 1) =~= dv.subrange(0, k as int).push(dv[k as int]));
                assert(snips@ == before_vec.push(s));
            }
            k = k + 1;
        }
        proof {
            assert(sorted_paths.deep_view().subrange(0, sorted_paths@.len() as int)
                =~= sorted_paths.deep_view());
        }
        let sorted_children = sort_folders(children);
        self.snippets = snips;
        self.sub_folders = sorted_children;
        proof {
            assert(final(self)@ =~= spec_discover(
                old(self)@.root_path,
                entry_models(entries@),
            ));
        }
    }

    /// How many snippets this folder and all its descendants hold.
    pub fn snippet_count_recursive(&self) -> (n: usize)
        requires
            spec_count(self@) <= usize::MAX,
        ensures
            n == spec_count(self@),
        decreases *self,
    {
        let mut count = self.snippets.len();
        proof {
            assert(self@.snippets.len() == self.snippets@.len());
            assert(count_children(self@.children.subrange(0, 0)) == 0) by {
                assert(self@.children.subrange(0, 0) =~= Seq::<FolderModel>::empty());
            }
        }
        proof {
            lemma_folder_models_index(self.sub_folders@);
        }
        let mut i: usize = 0;
        while i < self.sub_folders.len()
            invariant
                i <= self.sub_folders@.len(),
                spec_count(self@) <= usize::MAX,
                self@.children.len() == self.sub_folders@.len(),
                count == self@.snippets.len() + count_children(
                    self@.children.subrange(0, i as int),
                ),
            decreases self.sub_folders@.len() - i,
        {
            proof {
                lemma_folder_models_index(self.sub_folders@);
                assert(self@.children[i as int] == self.sub_folders@[i as int]@);
                lemma_count_children_step(self@.children, i as int);
                lemma_count_children_prefix(self@.children, i + 1);
                assert(decreases_to!(*self => self.sub_folders));
                assert(decreases_to!(self.sub_folders => self.sub_folders@));
                assert(decreases_to!(self.sub_folders@ => self.sub_folders@[i as int]));
            }
            let c = self.sub_folders[i].snippet_count_recursive();
            count = count + c;
            i = i + 1;
        }
        proof {
            assert(self@.children.subrange(0, self@.children.len() as int) =~= self@.children);
        }
        count
    }

    /// Pushes the paths of this folder's snippets and of all descendants
    /// onto `out`, in tree order.
    fn collect_paths(&self, out: &mut Vec<String>)
        ensures
            final(out).deep_view() == old(out).deep_view() + all_paths(self@),
        decreases *self,
    {
        let ghost base = out.deep_view();
        let mut i: usize = 0;
        proof {
            assert(self@.snippets.subrange(0, 0).map_values(|s: SnippetModel| s.path)
                =~= Seq::<Seq<char>>::empty());
            assert(base + Seq::<Seq<char>>::empty() =~= base);
        }
        while i < self.snippets.len()
            invariant
                i <= self.snippets@.len(),
                self@.snippets.len() == self.snippets@.len(),
                out.deep_view() == old(out).deep_view() + self@.snippets.subrange(
                    0,
                    i as int,
                ).map_values(|s: SnippetModel| s.path),
            decreases self.snippets@.len() - i,
        {
            let ghost prev = out.deep_view();
            out.push(self.snippets[i].absolute_path.clone());
            proof {
                assert(out.deep_view() =~= prev.push(self.snippets@[i as int]@.path));
                assert(self@.snippets[i as int] == self.snippets@[i as int]@);
                let a = self@.snippets.subrange(0, i + 1).map_values(|s: SnippetModel| s.path);
                let b = self@.snippets.subrange(0, i as int).map_values(
                    |s: SnippetModel| s.path,
                );
                assert(a =~= b.push(self@.snippets[i as int].path));
                assert(prev.push(self@.snippets[i as int].path) =~= old(out).deep_view() + a);
            }
            i = i + 1;
        }
        proof {
            assert(self@.snippets.subrange(0, self@.snippets.len() as int) =~= self@.snippets);
            assert(children_paths(self@.children.subrange(0, 0)) == Seq::<Seq<char>>::empty())
                by {
                assert(self@.children.subrange(0, 0) =~= Seq::<FolderModel>::empty());
            }
            assert(out.deep_view() + Seq::<Seq<char>>::empty() =~= out.deep_view());
            lemma_folder_models_index(self.sub_folders@);
        }
        let mut j: usize = 0;
        while j < self.sub_folders.len()
            invariant
                j <= self.sub_folders@.len(),
                self@.children.len() == self.sub_folders@.len(),
                out.deep_view() == old(out).deep_view() + self@.snippets.map_values(
                    |s: SnippetModel| s.path,
                ) + children_paths(self@.children.subrange(0, j as int)),
            decreases self.sub_folders@.len() - j,
        {
            proof {
                lemma_folder_models_index(self.sub_folders@);
                assert(self@.children[j as int] == self.sub_folders@[j as int]@);
                lemma_children_paths_step(self@.children, j as int);
                assert(decreases_to!(*self => self.sub_folders));
                assert(decreases_to!(self.sub_folders => self.sub_folders@));
                assert(decreases_to!(self.sub_folders@ => self.sub_folders@[j as int]));
            }
            let ghost prev = out.deep_view();
            self.sub_folders[j].collect_paths(out);
            proof {
                assert(out.deep_view() =~= prev + all_paths(self@.children[j as int]));
                assert(out.deep_view() =~= old(out).deep_view() + self@.snippets.map_values(
                    |s: SnippetModel| s.path,
                ) + children_paths(self@.children.subrange(0, j + 1)));
            }
            j = j + 1;
        }
        proof {
            assert(self@.children.subrange(0, self@.children.len() as int) =~= self@.children);
        }
    }

    /// Whether `files` has an entry for the path of every snippet under
    /// this folder.
    fn all_present(&self, files: &Vec<FileLines>) -> (b: bool)
        ensures
            b == spec_all_present(self@, file_models(files@)),
        decreases *self,
    {
        let ghost models = file_models(files@);
        let mut i: usize = 0;
        while i < self.snippets.len()
            invariant
                i <= self.snippets@.len(),
                self@.snippets.len() == self.snippets@.len(),
                models == file_models(files@),
                forall|k: int| 0 <= k < i ==> find_lines(models, self@.snippets[k].path)
                    is Some,
            decreases self.snippets@.len() - i,
        {
            proof {
                assert(self@.snippets[i as int] == self.snippets@[i as int]@);
            }
            let found = find_lines_exec(files, &self.snippets[i].absolute_path);
            if found.is_none() {
                return false;
            }
            i = i + 1;
        }
        proof {
            lemma_folder_models_index(self.sub_folders@);
            lemma_children_all_present_index(self@.children, models);
        }
        let mut j: usize = 0;
        while j < self.sub_folders.len()
            invariant
                j <= self.sub_folders@.len(),
                self@.children.len() == self.sub_folders@.len(),
                models == file_models(files@),
                forall|i2: int| 0 <= i2 < self@.snippets.len() ==> find_lines(
                    models,
                    self@.snippets[i2].path,
                ) is Some,
                forall|w: int| 0 <= w < j ==> spec_all_present(
                    #[trigger] self@.children[w],
                    models,
                ),
            decreases self.sub_folders@.len() - j,
        {
            proof {
                lemma_folder_models_index(self.sub_folders@);
                assert(self@.children[j as int] == self.sub_folders@[j as int]@);
                assert(decreases_to!(*self => self.sub_folders));
                assert(decreases_to!(self.sub_folders => self.sub_folders@));
                assert(decreases_to!(self.sub_folders@ => self.sub_folders@[j as int]));
            }
            if !self.sub_folders[j].all_present(files) {
                proof {
                    lemma_children_all_present_index(self@.children, models);
                }
                return false;
            }
            j = j + 1;
        }
        proof {
            lemma_children_all_present_index(self@.children, models);
        }
        true
    }

    /// Loads every snippet under this folder from the lines recorded for
    /// its path in `files`, the folder's own snippets first and then each
    /// child in turn. When some snippet's path has no entry, nothing is
    /// changed and an `Io` error is returned; otherwise every snippet is
    /// parsed anew from its entry.
    pub fn load_snippets(&mut self, files: &Vec<FileLines>) -> (r: Result<(), SnippetError>)
        ensures
            r is Ok <==> spec_all_present(old(self)@, file_models(files@)),
            r is Ok ==> final(self)@ == spec_loaded(old(self)@, file_models(files@)),
            r is Err ==> final(self)@ == old(self)@ && r == Err::<(), SnippetError>(
                SnippetError::Io,
            ),
    {
        if !self.all_present(files) {
            return Err(SnippetError::Io);
        }
        let mut taken = SnippetFolder::new("");
        core::mem::swap(&mut taken, self);
        let loaded = loaded_folder(taken, files);
        *self = loaded;
        Ok(())
    }

    /// The paths of every snippet under this folder, as one flat list in
    /// ascending lexicographic order, whatever the shape of the tree.
    pub fn list_names_recursive(&self) -> (names: Vec<String>)
        ensures
            names.deep_view() == sort_by_path((|p: Seq<char>| p), all_paths(self@)),
            crate::order::lex_sorted(names.deep_view()),
    {
        let mut out: Vec<String> = Vec::new();
        proof {
            assert(out.deep_view() =~= Seq::<Seq<char>>::empty());
        }
        self.collect_paths(&mut out);
        proof {
            assert(out.deep_view() =~= all_paths(self@));
        }
        let names = sort_strings(out);
        proof {
            let key = (|p: Seq<char>| p);
            crate::order::lemma_sort_by_path_props(key, all_paths(self@));
            let nv = names.deep_view();
            assert forall|a: int, b: int| 0 <= a < b < nv.len() implies lex_le(
                nv[a],
                nv[b],
            ) by {
                assert(lex_le(key(nv[a]), key(nv[b])));
            }
        }
        names
    }
}

} // verus!
