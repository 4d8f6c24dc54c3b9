//! The scanned tree: entries, size aggregation, and rendering.
//!
//! The scanner consumes a plain description of what the filesystem reported
//! ([`FsNode`]) and builds an [`Entry`] tree whose every directory carries the
//! recursive sum of the sizes beneath it. The renderer walks a finished tree
//! and produces one line per entry, with box-drawing connectors derived from
//! sibling position. Reading the real filesystem, and printing, stay with the
//! caller: this module only computes.

use vstd::prelude::*;
use vstd::string::StringExecFns;
use crate::FileSizeFormat;
use crate::size_label;

verus! {

// ---------------------------------------------------------------------------
// What the filesystem reported: the scanner's input.
// ---------------------------------------------------------------------------

/// One raw result of listing a directory, as the caller observed it.
/// The scanner never consults the filesystem itself; the caller hands it a
/// value of this shape and every failure is already recorded in it.
pub enum FsNode {
    /// The listing step itself failed on this item: the scan drops it.
    Skipped,
    /// The item's metadata could not be read: it degrades to a file of size 0.
    Unknown { name: String },
    /// A non-directory with the byte length the filesystem reported.
    File { name: String, size: u64 },
    /// A directory; `listing` is `None` when its contents could not be read.
    Dir { name: String, listing: Option<Vec<FsNode>> },
}

/// The mathematical shape of an [`FsNode`]: names as character sequences.
pub enum FsNodeModel {
    Skipped,
    Unknown { name: Seq<char> },
    File { name: Seq<char>, size: u64 },
    Dir { name: Seq<char>, listing: Option<Seq<FsNodeModel>> },
}

/// The model of one raw listing item.
pub open spec fn fs_model(fs: FsNode) -> FsNodeModel
    decreases fs,
{
    match fs {
        FsNode::Skipped => FsNodeModel::Skipped,
        FsNode::Unknown { name } => FsNodeModel::Unknown { name: name@ },
        FsNode::File { name, size } => FsNodeModel::File { name: name@, size },
        FsNode::Dir { name, listing } => FsNodeModel::Dir {
            name: name@,
            listing: match listing {
                Option::None => Option::None,
                Option::Some(v) => Option::Some(fs_models(v@)),
            },
        },
    }
}

/// The models of a sequence of raw listing items, in order.
pub open spec fn fs_models(l: Seq<FsNode>) -> Seq<FsNodeModel>
    decreases l,
{
    if l.len() == 0 {
        Seq::empty()
    } else {
        fs_models(l.drop_last()).push(fs_model(l.last()))
    }
}

/// [`fs_models`] maps [`fs_model`] over the sequence, element by element.
pub proof fn lemma_fs_models(l: Seq<FsNode>)
    ensures
        fs_models(l).len() == l.len(),
        forall|i: int| 0 <= i < l.len() ==> fs_models(l)[i] == fs_model(#[trigger] l[i]),
    decreases l,
{
    if l.len() > 0 {
        lemma_fs_models(l.drop_last());
        assert forall|i: int| 0 <= i < l.len() implies fs_models(l)[i] == fs_model(
            #[trigger] l[i],
        ) by {
            if i < l.len() - 1 {
                assert(fs_models(l)[i] == fs_models(l.drop_last())[i]);
                assert(l.drop_last()[i] == l[i]);
            } else {
                assert(fs_models(l)[i] == fs_model(l.last()));
            }
        }
    }
}

impl View for FsNode {
    type V = FsNodeModel;

    open spec fn view(&self) -> FsNodeModel {
        fs_model(*self)
    }
}

impl DeepView for FsNode {
    type V = FsNodeModel;

    open spec fn deep_view(&self) -> FsNodeModel {
        fs_model(*self)
    }
}

// ---------------------------------------------------------------------------
// The scanned tree and its model.
// ---------------------------------------------------------------------------

/// One node of the scanned tree: a file or a directory.
pub enum Entry {
    File(FileDesc),
    Dir(DirDesc),
}

/// A scanned file: its full path from the scan root and its byte length.
pub struct FileDesc {
    pub path: String,
    pub size: u64,
}

/// A scanned directory: its full path, its children in listing order, and
/// the recursive sum of the sizes beneath it.
pub struct DirDesc {
    pub path: String,
    pub entries: Vec<Entry>,
    pub size: u64,
}

/// A whole scanned tree: one owning root directory, read-only once built.
pub struct Tree {
    pub root: DirDesc,
}

/// The mathematical shape of a scanned file.
pub struct FileModel {
    pub path: Seq<char>,
    pub size: int,
}

/// The mathematical shape of a scanned directory.
pub struct DirModel {
    pub path: Seq<char>,
    pub size: int,
    pub children: Seq<EntryModel>,
}

/// The mathematical shape of one tree node.
pub enum EntryModel {
    File(FileModel),
    Dir(DirModel),
}

/// The model of a scanned directory.
pub open spec fn dir_model(d: DirDesc) -> DirModel
    decreases d,
{
    DirModel { path: d.path@, size: d.size as int, children: entry_models(d.entries@) }
}

/// The models of a sequence of tree nodes, in order.
pub open spec fn entry_models(l: Seq<Entry>) -> Seq<EntryModel>
    decreases l,
{
    if l.len() == 0 {
        Seq::empty()
    } else {
        entry_models(l.drop_last()).push(entry_model(l.last()))
    }
}

/// [`entry_models`] maps [`entry_model`] over the sequence, element by element.
pub proof fn lemma_entry_models(l: Seq<Entry>)
    ensures
        entry_models(l).len() == l.len(),
        forall|i: int| 0 <= i < l.len() ==> entry_models(l)[i] == entry_model(#[trigger] l[i]),
    decreases l,
{
    if l.len() > 0 {
        lemma_entry_models(l.drop_last());
        assert forall|i: int| 0 <= i < l.len() implies entry_models(l)[i] == entry_model(
            #[trigger] l[i],
        ) by {
            if i < l.len() - 1 {
                assert(entry_models(l)[i] == entry_models(l.drop_last())[i]);
                assert(l.drop_last()[i] == l[i]);
            } else {
                assert(entry_models(l)[i] == entry_model(l.last()));
            }
        }
    }
}

/// The model of one tree node.
pub open spec fn entry_model(e: Entry) -> EntryModel
    decreases e,
{
    match e {
        Entry::File(f) => EntryModel::File(FileModel { path: f.path@, size: f.size as int }),
        Entry::Dir(d) => EntryModel::Dir(dir_model(d)),
    }
}

impl View for Entry {
    type V = EntryModel;

    open spec fn view(&self) -> EntryModel {
        entry_model(*self)
    }
}

impl View for DirDesc {
    type V = DirModel;

    open spec fn view(&self) -> DirModel {
        dir_model(*self)
    }
}

impl View for FileDesc {
    type V = FileModel;

    open spec fn view(&self) -> FileModel {
        FileModel { path: self.path@, size: self.size as int }
    }
}

impl View for Tree {
    type V = DirModel;

    open spec fn view(&self) -> DirModel {
        dir_model(self.root)
    }
}

// ---------------------------------------------------------------------------
// Sizes and well-formedness.
// ---------------------------------------------------------------------------

/// The size recorded on a node.
pub open spec fn entry_size(e: EntryModel) -> int {
    match e {
        EntryModel::File(f) => f.size,
        EntryModel::Dir(d) => d.size,
    }
}

/// The full path recorded on a node.
pub open spec fn entry_path(e: EntryModel) -> Seq<char> {
    match e {
        EntryModel::File(f) => f.path,
        EntryModel::Dir(d) => d.path,
    }
}

/// The sum of the recorded sizes of a sequence of nodes.
pub open spec fn sum_sizes(s: Seq<EntryModel>) -> int
    decreases s,
{
    if s.len() == 0 {
        0
    } else {
        sum_sizes(s.drop_last()) + entry_size(s.last())
    }
}

/// A well-formed node: sizes are non-negative and every directory's size is
/// exactly the sum of its direct children's sizes, recursively.
pub open spec fn entry_wf(e: EntryModel) -> bool
    decreases e,
{
    match e {
        EntryModel::File(f) => f.size >= 0,
        EntryModel::Dir(d) => dir_wf(d),
    }
}

/// A well-formed directory (see [`entry_wf`]).
pub open spec fn dir_wf(d: DirModel) -> bool
    decreases d,
{
    &&& d.size == sum_sizes(d.children)
    &&& forall|i: int| 0 <= i < d.children.len() ==> entry_wf(#[trigger] d.children[i])
}

// ---------------------------------------------------------------------------
// The scan: from a raw listing to a tree.
// ---------------------------------------------------------------------------

/// The full path of a child named `name` under `parent`.
pub open spec fn child_path(parent: Seq<char>, name: Seq<char>) -> Seq<char> {
    parent + seq!['/'] + name
}

/// What the scan makes of one raw listing item found under `parent`:
/// `None` for an item the listing itself failed on (it is dropped), a
/// zero-size file for unreadable metadata, the reported file otherwise, and a
/// recursively scanned directory for a directory.
pub open spec fn scan_node(parent: Seq<char>, fs: FsNodeModel) -> Option<EntryModel>
    decreases fs,
{
    match fs {
        FsNodeModel::Skipped => Option::None,
        FsNodeModel::Unknown { name } => Option::Some(
            EntryModel::File(FileModel { path: child_path(parent, name), size: 0 }),
        ),
        FsNodeModel::File { name, size } => Option::Some(
            EntryModel::File(FileModel { path: child_path(parent, name), size: size as int }),
        ),
        FsNodeModel::Dir { name, listing } => Option::Some(
            EntryModel::Dir(scan_dir(child_path(parent, name), listing)),
        ),
    }
}

/// What the scan makes of a directory at `path`: an empty, zero-size
/// directory when its listing failed, else its scanned children in listing
/// order with their summed sizes.
pub open spec fn scan_dir(path: Seq<char>, listing: Option<Seq<FsNodeModel>>) -> DirModel
    decreases listing,
{
    match listing {
        Option::None => DirModel { path, size: 0, children: Seq::empty() },
        Option::Some(l) => {
            let children = scan_children(path, l);
            DirModel { path, size: sum_sizes(children), children }
        },
    }
}

/// The scanned children of a directory at `path`, in listing order, with the
/// dropped items absent.
pub open spec fn scan_children(path: Seq<char>, l: Seq<FsNodeModel>) -> Seq<EntryModel>
    decreases l,
{
    if l.len() == 0 {
        Seq::empty()
    } else {
        scan_children(path, l.drop_last()) + match scan_node(path, l.last()) {
            Option::None => Seq::<EntryModel>::empty(),
            Option::Some(e) => seq![e],
        }
    }
}

// ---------------------------------------------------------------------------
// The weight of a raw listing: what the scanned sizes will sum to.
// ---------------------------------------------------------------------------

/// The total byte weight of one raw item: the bytes the scan will account to
/// it. Dropped and degraded items weigh nothing; an unlisted directory weighs
/// nothing; a listed directory weighs the sum of its items.
pub open spec fn node_weight(fs: FsNodeModel) -> int
    decreases fs,
{
    match fs {
        FsNodeModel::Skipped => 0,
        FsNodeModel::Unknown { name } => 0,
        FsNodeModel::File { name, size } => size as int,
        FsNodeModel::Dir { name, listing } => listing_weight(listing),
    }
}

/// The total byte weight of a directory listing (`None` weighs nothing).
pub open spec fn listing_weight(listing: Option<Seq<FsNodeModel>>) -> int
    decreases listing,
{
    match listing {
        Option::None => 0,
        Option::Some(l) => items_weight(l),
    }
}

/// The summed weight of a sequence of raw items.
pub open spec fn items_weight(l: Seq<FsNodeModel>) -> int
    decreases l,
{
    if l.len() == 0 {
        0
    } else {
        items_weight(l.drop_last()) + node_weight(l.last())
    }
}

proof fn lemma_node_weight_nonneg(fs: FsNodeModel)
    ensures
        node_weight(fs) >= 0,
    decreases fs,
{
    match fs {
        FsNodeModel::Dir { name, listing } => {
            lemma_listing_weight_nonneg(listing);
        },
        _ => {},
    }
}

proof fn lemma_listing_weight_nonneg(listing: Option<Seq<FsNodeModel>>)
    ensures
        listing_weight(listing) >= 0,
    decreases listing,
{
    match listing {
        Option::None => {},
        Option::Some(l) => {
            lemma_items_weight_nonneg(l);
        },
    }
}

proof fn lemma_items_weight_nonneg(l: Seq<FsNodeModel>)
    ensures
        items_weight(l) >= 0,
    decreases l,
{
    if l.len() > 0 {
        lemma_items_weight_nonneg(l.drop_last());
        lemma_node_weight_nonneg(l.last());
    }
}

/// The scanned size of one item equals its weight.
proof fn lemma_scan_node_size(parent: Seq<char>, fs: FsNodeModel)
    ensures
        match scan_node(parent, fs) {
            Option::None => node_weight(fs) == 0,
            Option::Some(e) => entry_size(e) == node_weight(fs),
        },
    decreases fs,
{
    match fs {
        FsNodeModel::Dir { name, listing } => {
            lemma_scan_dir_size(child_path(parent, name), listing);
        },
        _ => {},
    }
}

/// The scanned size of a directory equals its listing's weight.
proof fn lemma_scan_dir_size(path: Seq<char>, listing: Option<Seq<FsNodeModel>>)
    ensures
        scan_dir(path, listing).size == listing_weight(listing),
    decreases listing,
{
    match listing {
        Option::None => {},
        Option::Some(l) => {
            lemma_scan_children_size(path, l);
        },
    }
}

/// The summed size of scanned children equals the items' summed weight.
proof fn lemma_scan_children_size(path: Seq<char>, l: Seq<FsNodeModel>)
    ensures
        sum_sizes(scan_children(path, l)) == items_weight(l),
    decreases l,
{
    if l.len() > 0 {
        lemma_scan_children_size(path, l.drop_last());
        lemma_scan_node_size(path, l.last());
        let front = scan_children(path, l.drop_last());
        match scan_node(path, l.last()) {
            Option::None => {
                assert(scan_children(path, l) =~= front);
            },
            Option::Some(e) => {
                assert(scan_children(path, l) =~= front + seq![e]);
                lemma_sum_sizes_snoc(front, e);
            },
        }
    }
}

/// The models of an optional listing.
pub open spec fn listing_models(listing: Option<Vec<FsNode>>) -> Option<Seq<FsNodeModel>> {
    match listing {
        Option::None => Option::None,
        Option::Some(v) => Option::Some(fs_models(v@)),
    }
}

/// The model of an optional scan result.
pub open spec fn opt_entry_model(r: Option<Entry>) -> Option<EntryModel> {
    match r {
        Option::None => Option::None,
        Option::Some(e) => Option::Some(entry_model(e)),
    }
}

/// The whole listing weighs at least any one item plus the items before it.
proof fn lemma_items_weight_split(l: Seq<FsNodeModel>, i: int)
    requires
        0 <= i < l.len(),
    ensures
        items_weight(l) >= items_weight(l.take(i)) + node_weight(l[i]),
    decreases l,
{
    if i == l.len() - 1 {
        assert(l.take(i) =~= l.drop_last());
    } else {
        lemma_items_weight_split(l.drop_last(), i);
        assert(l.drop_last().take(i) =~= l.take(i));
        assert(l.drop_last()[i] == l[i]);
        lemma_node_weight_nonneg(l.last());
    }
}

proof fn lemma_items_weight_step(l: Seq<FsNodeModel>, i: int)
    requires
        0 <= i < l.len(),
    ensures
        items_weight(l.take(i + 1)) == items_weight(l.take(i)) + node_weight(l[i]),
{
    assert(l.take(i + 1).drop_last() =~= l.take(i));
    assert(l.take(i + 1).last() == l[i]);
}

/// Computes the total weight of one raw item, or `None` when it does not fit
/// in a `u64`.
pub fn node_weight_checked(fs: &FsNode) -> (r: Option<u64>)
    ensures
        match r {
            Option::Some(w) => w as int == node_weight(fs@),
            Option::None => node_weight(fs@) > u64::MAX,
        },
    decreases *fs,
{
    match fs {
        FsNode::Skipped => Option::Some(0),
        FsNode::Unknown { name } => Option::Some(0),
        FsNode::File { name, size } => Option::Some(*size),
        FsNode::Dir { name, listing } => listing_weight_checked(listing),
    }
}

/// Computes the total weight of an optional listing, or `None` when it does
/// not fit in a `u64`. A caller uses this to establish the bound that
/// [`Tree::explore`] asks for.
#[verifier::loop_isolation(false)]
pub fn listing_weight_checked(listing: &Option<Vec<FsNode>>) -> (r: Option<u64>)
    ensures
        match r {
            Option::Some(w) => w as int == listing_weight(listing_models(*listing)),
            Option::None => listing_weight(listing_models(*listing)) > u64::MAX,
        },
    decreases *listing,
{
    match listing {
        Option::None => Option::Some(0),
        Option::Some(items) => {
            let ghost m = fs_models(items@);
            proof {
                lemma_fs_models(items@);
            }
            let mut total: u64 = 0;
            let n = items.len();
            for i in 0..n
                invariant
                    n == items.len(),
                    m == fs_models(items@),
                    m.len() == items@.len(),
                    forall|j: int| 0 <= j < items@.len() ==> m[j] == fs_model(#[trigger] items@[j]),
                    total as int == items_weight(m.take(i as int)),
                decreases n - i,
            {
                let w_opt = node_weight_checked(&items[i]);
                proof {
                    lemma_items_weight_step(m, i as int);
                }
                match w_opt {
                    Option::None => {
                        proof {
                            lemma_items_weight_split(m, i as int);
                            lemma_items_weight_nonneg(m.take(i as int));
                            assert(m.take(m.len() as int) =~= m);
                        }
                        return Option::None;
                    },
                    Option::Some(w) => {
                        match total.checked_add(w) {
                            Option::None => {
                                proof {
                                    lemma_items_weight_split(m, i as int);
                                    assert(m.take(m.len() as int) =~= m);
                                }
                                return Option::None;
                            },
                            Option::Some(t) => {
                                total = t;
                            },
                        }
                    },
                }
            }
            proof {
                assert(m.take(m.len() as int) =~= m);
            }
            Option::Some(total)
        },
    }
}

// ---------------------------------------------------------------------------
// The executable scan.
// ---------------------------------------------------------------------------

fn join_path(parent: &str, name: &str) -> (r: String)
    ensures
        r@ == child_path(parent@, name@),
{
    proof {
        reveal_strlit("/");
    }
    let mut s = parent.to_owned();
    s.append("/");
    s.append(name);
    proof {
        assert(s@ =~= child_path(parent@, name@));
    }
    s
}

impl Entry {
    /// The size recorded on this node: a file's byte length, a directory's
    /// aggregate.
    pub fn size(&self) -> (s: u64)
        ensures
            s as int == entry_size(self@),
    {
        match self {
            Entry::File(desc) => desc.size,
            Entry::Dir(desc) => desc.size,
        }
    }

    /// Builds the tree node for one raw listing item found under `parent`:
    /// `None` exactly for an item the listing itself failed on.
    pub fn from_fs(parent: &str, fs: &FsNode) -> (r: Option<Entry>)
        requires
            node_weight(fs@) <= u64::MAX,
        ensures
            opt_entry_model(r) == scan_node(parent@, fs@),
        decreases *fs,
    {
        match fs {
            FsNode::Skipped => Option::None,
            FsNode::Unknown { name } => Option::Some(
                Entry::File(FileDesc { path: join_path(parent, name.as_str()), size: 0 }),
            ),
            FsNode::File { name, size } => Option::Some(
                Entry::File(FileDesc { path: join_path(parent, name.as_str()), size: *size }),
            ),
            FsNode::Dir { name, listing } => Option::Some(
                Entry::Dir(DirDesc::new(join_path(parent, name.as_str()), listing)),
            ),
        }
    }
}

impl DirDesc {
    /// Builds the directory at `path` from what listing it reported: empty
    /// and zero-size when the listing failed, else its scanned children in
    /// listing order with their sizes summed into `size`.
    #[verifier::loop_isolation(false)]
    pub fn new(path: String, listing: &Option<Vec<FsNode>>) -> (d: DirDesc)
        requires
            listing_weight(listing_models(*listing)) <= u64::MAX,
        ensures
            d@ == scan_dir(path@, listing_models(*listing)),
        decreases *listing,
    {
        match listing {
            Option::None => DirDesc { path, entries: Vec::new(), size: 0 },
            Option::Some(items) => {
                let ghost m = fs_models(items@);
                proof {
                    lemma_fs_models(items@);
                }
                let mut entries: Vec<Entry> = Vec::new();
                let mut size: u64 = 0;
                let n = items.len();
                for i in 0..n
                    invariant
                        n == items.len(),
                        m == fs_models(items@),
                        m.len() == items@.len(),
                        forall|j: int| 0 <= j < items@.len() ==> m[j] == fs_model(
                            #[trigger] items@[j],
                        ),
                        items_weight(m) <= u64::MAX,
                        entry_models(entries@) == scan_children(path@, m.take(i as int)),
                        size as int == sum_sizes(scan_children(path@, m.take(i as int))),
                    decreases n - i,
                {
                    proof {
                        lemma_items_weight_split(m, i as int);
                        lemma_items_weight_nonneg(m.take(i as int));
                        lemma_node_weight_nonneg(m[i as int]);
                        lemma_scan_children_size(path@, m.take(i as int));
                        lemma_scan_node_size(path@, m[i as int]);
                        lemma_items_weight_step(m, i as int);
                        assert(m.take(i as int + 1).drop_last() =~= m.take(i as int));
                        assert(m.take(i as int + 1).last() == m[i as int]);
                    }
                    let e_opt = Entry::from_fs(path.as_str(), &items[i]);
                    match e_opt {
                        Option::None => {},
                        Option::Some(e) => {
                            size = size + e.size();
                            proof {
                                assert(entries@.push(e).drop_last() =~= entries@);
                                assert(entries@.push(e).last() == e);
                                assert(entry_models(entries@.push(e)) == entry_models(
                                    entries@,
                                ).push(entry_model(e)));
                                assert(scan_children(path@, m.take(i as int + 1)) == scan_children(
                                    path@,
                                    m.take(i as int),
                                ) + seq![entry_model(e)]);
                                assert(scan_children(path@, m.take(i as int)).push(entry_model(e))
                                    =~= scan_children(path@, m.take(i as int)) + seq![
                                    entry_model(e),
                                ]);
                                lemma_sum_sizes_snoc(
                                    scan_children(path@, m.take(i as int)),
                                    entry_model(e),
                                );
                            }
                            entries.push(e);
                        },
                    }
                }
                proof {
                    assert(m.take(m.len() as int) =~= m);
                }
                DirDesc { path, entries, size }
            },
        }
    }
}

impl Tree {
    /// Builds the whole tree for a scan rooted at `path`, from the root's
    /// reported listing. Never fails: every unreadable part of the input is
    /// already degraded in it. The bound on the listing's weight is the one
    /// machine limit: the aggregate must fit in a `u64`
    /// ([`listing_weight_checked`] decides it).
    pub fn explore(path: String, listing: &Option<Vec<FsNode>>) -> (t: Tree)
        requires
            listing_weight(listing_models(*listing)) <= u64::MAX,
        ensures
            t@ == scan_dir(path@, listing_models(*listing)),
            dir_wf(t@),
    {
        proof {
            lemma_scan_aggregate(path@, listing_models(*listing));
        }
        Tree { root: DirDesc::new(path, listing) }
    }
}

// ---------------------------------------------------------------------------
// Laws of the scan.
// ---------------------------------------------------------------------------

/// Aggregate invariant: every directory a scan produces carries exactly the
/// sum of its children's sizes, recursively.
pub proof fn lemma_scan_aggregate(path: Seq<char>, listing: Option<Seq<FsNodeModel>>)
    ensures
        dir_wf(scan_dir(path, listing)),
    decreases listing,
{
    match listing {
        Option::None => {
            let d = scan_dir(path, listing);
            assert(d.children =~= Seq::<EntryModel>::empty());
            assert(sum_sizes(Seq::<EntryModel>::empty()) == 0);
            assert(dir_wf(d));
        },
        Option::Some(l) => {
            lemma_scan_children_wf(path, l);
            let d = scan_dir(path, listing);
            assert(d.children == scan_children(path, l));
            assert(d.size == sum_sizes(d.children));
            assert(dir_wf(d));
        },
    }
}

proof fn lemma_scan_node_wf(parent: Seq<char>, fs: FsNodeModel)
    ensures
        match scan_node(parent, fs) {
            Option::None => true,
            Option::Some(e) => entry_wf(e),
        },
    decreases fs,
{
    match fs {
        FsNodeModel::Dir { name, listing } => {
            lemma_scan_aggregate(child_path(parent, name), listing);
        },
        _ => {},
    }
}

proof fn lemma_scan_children_wf(path: Seq<char>, l: Seq<FsNodeModel>)
    ensures
        forall|i: int|
            0 <= i < scan_children(path, l).len() ==> entry_wf(#[trigger] scan_children(path, l)[i]),
    decreases l,
{
    if l.len() > 0 {
        lemma_scan_children_wf(path, l.drop_last());
        lemma_scan_node_wf(path, l.last());
        let front = scan_children(path, l.drop_last());
        let whole = scan_children(path, l);
        assert forall|i: int| 0 <= i < whole.len() implies entry_wf(#[trigger] whole[i]) by {
            if i < front.len() {
                assert(whole[i] == front[i]);
            } else {
                match scan_node(path, l.last()) {
                    Option::None => {},
                    Option::Some(e) => {
                        assert(whole[i] == e);
                    },
                }
            }
        }
    }
}

/// Leaf correspondence: a readable non-directory becomes a leaf carrying
/// exactly the byte length the filesystem reported for it.
pub proof fn lemma_file_leaf(parent: Seq<char>, name: Seq<char>, size: u64)
    ensures
        scan_node(parent, FsNodeModel::File { name, size }) == Option::Some(
            EntryModel::File(FileModel { path: child_path(parent, name), size: size as int }),
        ),
{
}

/// Degrade, not abort: an item the listing failed on leaves no trace. The
/// scan of a listing holding such an item equals the scan of the listing
/// without it, so the siblings and the aggregate are exactly those of the
/// readable items.
pub proof fn lemma_skipped_item_ignored(path: Seq<char>, l: Seq<FsNodeModel>, i: int)
    requires
        0 <= i < l.len(),
        l[i] is Skipped,
    ensures
        scan_children(path, l) == scan_children(path, l.remove(i)),
    decreases l,
{
    let shorter = l.remove(i);
    if i == l.len() - 1 {
        assert(shorter =~= l.drop_last());
        assert(scan_node(path, l.last()) is None);
        assert(scan_children(path, l) == scan_children(path, l.drop_last())
            + Seq::<EntryModel>::empty());
        assert(scan_children(path, l.drop_last()) + Seq::<EntryModel>::empty() =~= scan_children(
            path,
            l.drop_last(),
        ));
    } else {
        lemma_skipped_item_ignored(path, l.drop_last(), i);
        assert(shorter.drop_last() =~= l.drop_last().remove(i));
        assert(shorter.last() == l.last());
    }
}

proof fn lemma_sum_sizes_snoc(s: Seq<EntryModel>, e: EntryModel)
    ensures
        sum_sizes(s + seq![e]) == sum_sizes(s) + entry_size(e),
{
    let whole = s + seq![e];
    assert(whole.drop_last() =~= s);
    assert(whole.last() == e);
}


// ---------------------------------------------------------------------------
// Rendering: from a finished tree to one line per entry.
// ---------------------------------------------------------------------------

/// The displayed name of an entry: the final component of its path, the part
/// after the last `'/'` (the whole path when it has none, empty when the path
/// ends in `'/'`).
pub open spec fn basename(p: Seq<char>) -> Seq<char>
    decreases p.len(),
{
    if p.len() == 0 {
        Seq::empty()
    } else if p.last() == '/' {
        Seq::empty()
    } else {
        basename(p.drop_last()).push(p.last())
    }
}

/// The connector glyph before a child's name: a closing corner for the last
/// child, a tee for every other.
pub open spec fn connector(last: bool) -> Seq<char> {
    if last {
        seq!['\u{2514}', '\u{2500}']
    } else {
        seq!['\u{251c}', '\u{2500}']
    }
}

/// What a child appends to the prefix handed to its own descendants: a
/// continuation bar while later siblings follow, blanks after the last child.
pub open spec fn continuation(last: bool) -> Seq<char> {
    if last {
        seq![' ', ' ']
    } else {
        seq!['\u{2502}', ' ']
    }
}

/// One printed line: the prefix, the displayed name, and, unless hidden, the
/// parenthesized size suffix.
pub open spec fn display_line(
    prefix: Seq<char>,
    path: Seq<char>,
    size: int,
    hide_size: bool,
    unit: FileSizeFormat,
) -> Seq<char> {
    if hide_size {
        prefix + basename(path)
    } else {
        prefix + basename(path) + seq![' ', '('] + size_label(unit, size) + seq![')']
    }
}

/// The lines an entry contributes: nothing when a nonzero depth limit is
/// exceeded; else its own line and, for a directory, its children's lines.
/// The root is at depth 0; a node's children are one deeper.
pub open spec fn render_entry(
    e: EntryModel,
    prefix: Seq<char>,
    children_prefix: Seq<char>,
    hide_size: bool,
    unit: FileSizeFormat,
    max_depth: int,
    depth: int,
) -> Seq<Seq<char>>
    decreases e, 0int,
{
    if max_depth != 0 && depth > max_depth {
        Seq::empty()
    } else {
        match e {
            EntryModel::File(f) => seq![display_line(prefix, f.path, f.size, hide_size, unit)],
            EntryModel::Dir(d) => seq![display_line(prefix, d.path, d.size, hide_size, unit)]
                + render_children(d.children, children_prefix, hide_size, unit, max_depth, depth, 0),
        }
    }
}

/// The lines of the children from index `i` on, of a directory sitting at
/// `depth` whose descendants get `children_prefix`. Child `i` extends it with
/// the connector, and hands down the matching continuation.
pub open spec fn render_children(
    c: Seq<EntryModel>,
    children_prefix: Seq<char>,
    hide_size: bool,
    unit: FileSizeFormat,
    max_depth: int,
    depth: int,
    i: int,
) -> Seq<Seq<char>>
    decreases c, c.len() - i,
{
    if i < 0 || i >= c.len() {
        Seq::empty()
    } else {
        let last = i == c.len() - 1;
        render_entry(
            c[i],
            children_prefix + connector(last),
            children_prefix + continuation(last),
            hide_size,
            unit,
            max_depth,
            depth + 1,
        ) + render_children(c, children_prefix, hide_size, unit, max_depth, depth, i + 1)
    }
}

// ---------------------------------------------------------------------------
// Laws of the renderer.
// ---------------------------------------------------------------------------

/// With no depth limit, the depth argument is irrelevant to the output.
pub proof fn lemma_render_unlimited(
    e: EntryModel,
    prefix: Seq<char>,
    children_prefix: Seq<char>,
    hide_size: bool,
    unit: FileSizeFormat,
    d1: int,
    d2: int,
)
    ensures
        render_entry(e, prefix, children_prefix, hide_size, unit, 0, d1) == render_entry(
            e,
            prefix,
            children_prefix,
            hide_size,
            unit,
            0,
            d2,
        ),
    decreases e, 0int,
{
    match e {
        EntryModel::File(f) => {},
        EntryModel::Dir(d) => {
            lemma_render_children_unlimited(d.children, children_prefix, hide_size, unit, d1, d2, 0);
        },
    }
}

proof fn lemma_render_children_unlimited(
    c: Seq<EntryModel>,
    children_prefix: Seq<char>,
    hide_size: bool,
    unit: FileSizeFormat,
    d1: int,
    d2: int,
    i: int,
)
    ensures
        render_children(c, children_prefix, hide_size, unit, 0, d1, i) == render_children(
            c,
            children_prefix,
            hide_size,
            unit,
            0,
            d2,
            i,
        ),
    decreases c, c.len() - i,
{
    if 0 <= i < c.len() {
        let last = i == c.len() - 1;
        lemma_render_unlimited(
            c[i],
            children_prefix + connector(last),
            children_prefix + continuation(last),
            hide_size,
            unit,
            d1 + 1,
            d2 + 1,
        );
        lemma_render_children_unlimited(c, children_prefix, hide_size, unit, d1, d2, i + 1);
    }
}

/// Depth limiting: past a nonzero limit nothing is printed at all.
pub proof fn lemma_render_children_beyond(
    c: Seq<EntryModel>,
    children_prefix: Seq<char>,
    hide_size: bool,
    unit: FileSizeFormat,
    max_depth: int,
    depth: int,
    i: int,
)
    requires
        max_depth != 0,
        depth + 1 > max_depth,
    ensures
        render_children(c, children_prefix, hide_size, unit, max_depth, depth, i) == Seq::<
            Seq<char>,
        >::empty(),
    decreases c, c.len() - i,
{
    if 0 <= i < c.len() {
        lemma_render_children_beyond(c, children_prefix, hide_size, unit, max_depth, depth, i + 1);
        let last = i == c.len() - 1;
        assert(render_entry(
            c[i],
            children_prefix + connector(last),
            children_prefix + continuation(last),
            hide_size,
            unit,
            max_depth,
            depth + 1,
        ) =~= Seq::<Seq<char>>::empty());
        assert(render_children(c, children_prefix, hide_size, unit, max_depth, depth, i)
            =~= Seq::<Seq<char>>::empty());
    }
}

/// Depth limiting: an entry sitting exactly at a nonzero depth limit prints
/// its own line and nothing beneath it.
pub proof fn lemma_render_at_limit(
    e: EntryModel,
    prefix: Seq<char>,
    children_prefix: Seq<char>,
    hide_size: bool,
    unit: FileSizeFormat,
    max_depth: int,
)
    requires
        max_depth != 0,
    ensures
        render_entry(e, prefix, children_prefix, hide_size, unit, max_depth, max_depth) == seq![
            display_line(prefix, entry_path(e), entry_size(e), hide_size, unit),
        ],
{
    match e {
        EntryModel::File(f) => {},
        EntryModel::Dir(d) => {
            lemma_render_children_beyond(
                d.children,
                children_prefix,
                hide_size,
                unit,
                max_depth,
                max_depth,
                0,
            );
            assert(render_entry(e, prefix, children_prefix, hide_size, unit, max_depth, max_depth)
                =~= seq![display_line(prefix, d.path, d.size, hide_size, unit)]);
        },
    }
}

/// Depth limiting at the root: with a limit of 1, a directory at depth 0
/// prints exactly one line for itself and one per direct child, nothing else.
pub proof fn lemma_render_depth_one(
    d: DirModel,
    prefix: Seq<char>,
    children_prefix: Seq<char>,
    hide_size: bool,
    unit: FileSizeFormat,
)
    ensures
        render_entry(EntryModel::Dir(d), prefix, children_prefix, hide_size, unit, 1, 0).len() == 1
            + d.children.len(),
{
    lemma_render_children_count_at_limit(d.children, children_prefix, hide_size, unit, 0);
}

proof fn lemma_render_children_count_at_limit(
    c: Seq<EntryModel>,
    children_prefix: Seq<char>,
    hide_size: bool,
    unit: FileSizeFormat,
    i: int,
)
    requires
        0 <= i <= c.len(),
    ensures
        render_children(c, children_prefix, hide_size, unit, 1, 0, i).len() == c.len() - i,
    decreases c.len() - i,
{
    if i < c.len() {
        let last = i == c.len() - 1;
        lemma_render_at_limit(
            c[i],
            children_prefix + connector(last),
            children_prefix + continuation(last),
            hide_size,
            unit,
            1,
        );
        lemma_render_children_count_at_limit(c, children_prefix, hide_size, unit, i + 1);
    }
}

/// Hiding sizes makes the output independent of the chosen unit.
pub proof fn lemma_render_hidden_unit_irrelevant(
    e: EntryModel,
    prefix: Seq<char>,
    children_prefix: Seq<char>,
    u1: FileSizeFormat,
    u2: FileSizeFormat,
    max_depth: int,
    depth: int,
)
    ensures
        render_entry(e, prefix, children_prefix, true, u1, max_depth, depth) == render_entry(
            e,
            prefix,
            children_prefix,
            true,
            u2,
            max_depth,
            depth,
        ),
    decreases e, 0int,
{
    match e {
        EntryModel::File(f) => {},
        EntryModel::Dir(d) => {
            lemma_render_children_hidden_unit_irrelevant(
                d.children,
                children_prefix,
                u1,
                u2,
                max_depth,
                depth,
                0,
            );
        },
    }
}

proof fn lemma_render_children_hidden_unit_irrelevant(
    c: Seq<EntryModel>,
    children_prefix: Seq<char>,
    u1: FileSizeFormat,
    u2: FileSizeFormat,
    max_depth: int,
    depth: int,
    i: int,
)
    ensures
        render_children(c, children_prefix, true, u1, max_depth, depth, i) == render_children(
            c,
            children_prefix,
            true,
            u2,
            max_depth,
            depth,
            i,
        ),
    decreases c, c.len() - i,
{
    if 0 <= i < c.len() {
        let last = i == c.len() - 1;
        lemma_render_hidden_unit_irrelevant(
            c[i],
            children_prefix + connector(last),
            children_prefix + continuation(last),
            u1,
            u2,
            max_depth,
            depth + 1,
        );
        lemma_render_children_hidden_unit_irrelevant(
            c,
            children_prefix,
            u1,
            u2,
            max_depth,
            depth,
            i + 1,
        );
    }
}

/// Connector law: child `i` of a directory is rendered behind the closing
/// corner exactly when it is the last child, behind the tee otherwise, and
/// hands its descendants the continuation bar exactly when it is not last.
pub proof fn lemma_connector_law(
    c: Seq<EntryModel>,
    children_prefix: Seq<char>,
    hide_size: bool,
    unit: FileSizeFormat,
    max_depth: int,
    depth: int,
    i: int,
)
    requires
        0 <= i < c.len(),
    ensures
        render_children(c, children_prefix, hide_size, unit, max_depth, depth, i) == render_entry(
            c[i],
            children_prefix + connector(i == c.len() - 1),
            children_prefix + continuation(i == c.len() - 1),
            hide_size,
            unit,
            max_depth,
            depth + 1,
        ) + render_children(c, children_prefix, hide_size, unit, max_depth, depth, i + 1),
        (connector(i == c.len() - 1) == connector(true)) <==> (i == c.len() - 1),
        (continuation(i == c.len() - 1) == continuation(false)) <==> (i != c.len() - 1),
{
    assert(connector(true)[0] != connector(false)[0]);
    assert(continuation(true)[0] != continuation(false)[0]);
}

/// Connector law, presence half: when a directory's children fall within the
/// depth bound, the rendered output holds, for each child, that child's own
/// line behind the connector its position dictates -- the closing corner for
/// the last child alone, the tee for every other.
pub proof fn lemma_child_line_present(
    c: Seq<EntryModel>,
    children_prefix: Seq<char>,
    hide_size: bool,
    unit: FileSizeFormat,
    max_depth: int,
    depth: int,
    i: int,
)
    requires
        0 <= i < c.len(),
        !(max_depth != 0 && depth + 1 > max_depth),
    ensures
        render_children(c, children_prefix, hide_size, unit, max_depth, depth, 0).contains(
            display_line(
                children_prefix + connector(i == c.len() - 1),
                entry_path(c[i]),
                entry_size(c[i]),
                hide_size,
                unit,
            ),
        ),
{
    lemma_child_line_present_from(c, children_prefix, hide_size, unit, max_depth, depth, i, 0);
}

proof fn lemma_child_line_present_from(
    c: Seq<EntryModel>,
    children_prefix: Seq<char>,
    hide_size: bool,
    unit: FileSizeFormat,
    max_depth: int,
    depth: int,
    i: int,
    j: int,
)
    requires
        0 <= j <= i < c.len(),
        !(max_depth != 0 && depth + 1 > max_depth),
    ensures
        render_children(c, children_prefix, hide_size, unit, max_depth, depth, j).contains(
            display_line(
                children_prefix + connector(i == c.len() - 1),
                entry_path(c[i]),
                entry_size(c[i]),
                hide_size,
                unit,
            ),
        ),
    decreases i - j,
{
    let last = j == c.len() - 1;
    let block = render_entry(
        c[j],
        children_prefix + connector(last),
        children_prefix + continuation(last),
        hide_size,
        unit,
        max_depth,
        depth + 1,
    );
    let rest = render_children(c, children_prefix, hide_size, unit, max_depth, depth, j + 1);
    let whole = render_children(c, children_prefix, hide_size, unit, max_depth, depth, j);
    assert(whole == block + rest);
    let line = display_line(
        children_prefix + connector(i == c.len() - 1),
        entry_path(c[i]),
        entry_size(c[i]),
        hide_size,
        unit,
    );
    if j == i {
        lemma_render_first_line(
            c[j],
            children_prefix + connector(last),
            children_prefix + continuation(last),
            hide_size,
            unit,
            max_depth,
            depth + 1,
        );
        assert(whole[0] == line);
        assert(whole.contains(line));
    } else {
        lemma_child_line_present_from(c, children_prefix, hide_size, unit, max_depth, depth, i, j + 1);
        let k = choose|k: int| 0 <= k < rest.len() && rest[k] == line;
        assert(whole[block.len() + k] == line);
        assert(whole.contains(line));
    }
}

/// Every printed entry's first line is its own, and begins with its prefix.
pub proof fn lemma_render_first_line(
    e: EntryModel,
    prefix: Seq<char>,
    children_prefix: Seq<char>,
    hide_size: bool,
    unit: FileSizeFormat,
    max_depth: int,
    depth: int,
)
    requires
        !(max_depth != 0 && depth > max_depth),
    ensures
        render_entry(e, prefix, children_prefix, hide_size, unit, max_depth, depth).len() >= 1,
        render_entry(e, prefix, children_prefix, hide_size, unit, max_depth, depth)[0]
            == display_line(prefix, entry_path(e), entry_size(e), hide_size, unit),
        display_line(prefix, entry_path(e), entry_size(e), hide_size, unit).take(
            prefix.len() as int,
        ) == prefix,
{
    match e {
        EntryModel::File(f) => {},
        EntryModel::Dir(d) => {},
    }
    assert(display_line(prefix, entry_path(e), entry_size(e), hide_size, unit).take(
        prefix.len() as int,
    ) =~= prefix);
}

// ---------------------------------------------------------------------------
// The executable renderer.
// ---------------------------------------------------------------------------

/// No `'/'` occurs at or after position `k`, and `k` sits just after one (or
/// at the start): then the displayed name is the suffix from `k`.
proof fn lemma_basename_suffix(p: Seq<char>, k: int)
    requires
        0 <= k <= p.len(),
        forall|j: int| k <= j < p.len() ==> p[j] != '/',
        k > 0 ==> p[k - 1] == '/',
    ensures
        basename(p) == p.subrange(k, p.len() as int),
    decreases p.len(),
{
    if p.len() == 0 {
        assert(basename(p) =~= p.subrange(0, 0));
    } else if k == p.len() {
        assert(p.last() == '/');
        assert(basename(p) =~= p.subrange(k, p.len() as int));
    } else {
        assert(p.last() != '/');
        lemma_basename_suffix(p.drop_last(), k);
        assert(p.drop_last().subrange(k, p.len() - 1) =~= p.subrange(k, p.len() - 1));
        assert(basename(p) =~= p.subrange(k, p.len() as int));
    }
}

/// The displayed name of the entry at `path`.
#[verifier::loop_isolation(false)]
fn basename_of(path: &str) -> (r: String)
    ensures
        r@ == basename(path@),
{
    let len = path.unicode_len();
    let mut k: usize = len;
    while k > 0
        invariant
            k <= len,
            forall|j: int| k <= j < path@.len() ==> path@[j] != '/',
        decreases k,
    {
        if path.get_char(k - 1) == '/' {
            proof {
                lemma_basename_suffix(path@, k as int);
            }
            return path.substring_char(k, len).to_owned();
        }
        k = k - 1;
    }
    proof {
        lemma_basename_suffix(path@, 0);
    }
    path.substring_char(0, len).to_owned()
}

fn connector_str(last: bool) -> (r: &'static str)
    ensures
        r@ == connector(last),
{
    proof {
        reveal_strlit("\u{2514}\u{2500}");
        reveal_strlit("\u{251c}\u{2500}");
    }
    if last {
        "\u{2514}\u{2500}"
    } else {
        "\u{251c}\u{2500}"
    }
}

fn continuation_str(last: bool) -> (r: &'static str)
    ensures
        r@ == continuation(last),
{
    proof {
        reveal_strlit("  ");
        reveal_strlit("\u{2502} ");
    }
    if last {
        "  "
    } else {
        "\u{2502} "
    }
}

fn extend_prefix(base: &str, suffix: &str) -> (r: String)
    ensures
        r@ == base@ + suffix@,
{
    let mut s = base.to_owned();
    s.append(suffix);
    s
}

/// Builds the printed line for the entry at `path` with the given prefix.
fn format_line(prefix: &str, path: &str, size: u64, hide_size: bool, unit: FileSizeFormat) -> (r:
    String)
    ensures
        r@ == display_line(prefix@, path@, size as int, hide_size, unit),
{
    let mut s = prefix.to_owned();
    let base = basename_of(path);
    s.append(base.as_str());
    if !hide_size {
        proof {
            reveal_strlit(" (");
            reveal_strlit(")");
        }
        s.append(" (");
        let label = unit.to_string(size);
        s.append(label.as_str());
        s.append(")");
        proof {
            assert(s@ =~= display_line(prefix@, path@, size as int, hide_size, unit));
        }
    }
    s
}


impl Entry {
    /// Appends this entry's lines to `out`: its own line behind `prefix`,
    /// then, for a directory, its children's lines behind `children_prefix`,
    /// provided `depth` does not exceed a nonzero `max_depth`.
    pub fn print_rec(
        &self,
        prefix: &str,
        children_prefix: &str,
        hide_size: bool,
        unit: FileSizeFormat,
        max_depth: u32,
        depth: u32,
        out: &mut Vec<String>,
    )
        ensures
            final(out).deep_view() == old(out).deep_view() + render_entry(
                self@,
                prefix@,
                children_prefix@,
                hide_size,
                unit,
                max_depth as int,
                depth as int,
            ),
        decreases *self,
    {
        if max_depth == 0 || depth <= max_depth {
            match self {
                Entry::File(desc) => {
                    let line = format_line(prefix, desc.path.as_str(), desc.size, hide_size, unit);
                    proof {
                        assert(out@.push(line) =~= out@ + seq![line]);
                    }
                    out.push(line);
                    proof {
                        assert(out.deep_view() =~= old(out).deep_view() + seq![line@]);
                        assert(render_entry(
                            self@,
                            prefix@,
                            children_prefix@,
                            hide_size,
                            unit,
                            max_depth as int,
                            depth as int,
                        ) =~= seq![line@]);
                    }
                },
                Entry::Dir(desc) => {
                    desc.print_rec(prefix, children_prefix, hide_size, unit, max_depth, depth, out);
                },
            }
        } else {
            proof {
                assert(out.deep_view() =~= old(out).deep_view() + Seq::<Seq<char>>::empty());
            }
        }
    }
}

impl DirDesc {
    /// Appends this directory's lines to `out`: its own line behind `prefix`,
    /// then each child's lines, with the connector and continuation chosen by
    /// whether the child is last, provided `depth` does not exceed a nonzero
    /// `max_depth`.
    #[verifier::loop_isolation(false)]
    #[verifier::rlimit(60)]
    pub fn print_rec(
        &self,
        prefix: &str,
        children_prefix: &str,
        hide_size: bool,
        unit: FileSizeFormat,
        max_depth: u32,
        depth: u32,
        out: &mut Vec<String>,
    )
        ensures
            final(out).deep_view() == old(out).deep_view() + render_entry(
                EntryModel::Dir(self@),
                prefix@,
                children_prefix@,
                hide_size,
                unit,
                max_depth as int,
                depth as int,
            ),
        decreases *self,
    {
        let ghost target = old(out).deep_view() + render_entry(
            EntryModel::Dir(self@),
            prefix@,
            children_prefix@,
            hide_size,
            unit,
            max_depth as int,
            depth as int,
        );
        if max_depth != 0 && depth > max_depth {
            proof {
                assert(out.deep_view() =~= target);
            }
            return;
        }
        let line = format_line(prefix, self.path.as_str(), self.size, hide_size, unit);
        out.push(line);
        let ghost cm = dir_model(*self).children;
        proof {
            lemma_entry_models(self.entries@);
            assert(out.deep_view() =~= old(out).deep_view() + seq![line@]);
        }
        if max_depth != 0 && depth >= max_depth {
            proof {
                lemma_render_children_beyond(
                    cm,
                    children_prefix@,
                    hide_size,
                    unit,
                    max_depth as int,
                    depth as int,
                    0,
                );
                assert(render_entry(
                    EntryModel::Dir(self@),
                    prefix@,
                    children_prefix@,
                    hide_size,
                    unit,
                    max_depth as int,
                    depth as int,
                ) =~= seq![line@]);
                assert(out.deep_view() =~= target);
            }
            return;
        }
        proof {
            assert(render_entry(
                EntryModel::Dir(self@),
                prefix@,
                children_prefix@,
                hide_size,
                unit,
                max_depth as int,
                depth as int,
            ) == seq![line@] + render_children(
                cm,
                children_prefix@,
                hide_size,
                unit,
                max_depth as int,
                depth as int,
                0,
            ));
            assert(out.deep_view() + render_children(
                cm,
                children_prefix@,
                hide_size,
                unit,
                max_depth as int,
                depth as int,
                0,
            ) =~= target);
        }
        let n = self.entries.len();
        for j in 0..n
            invariant
                n == self.entries.len(),
                cm == dir_model(*self).children,
                cm.len() == n,
                forall|t: int| 0 <= t < n ==> cm[t] == entry_model(#[trigger] self.entries@[t]),
                out.deep_view() + render_children(
                    cm,
                    children_prefix@,
                    hide_size,
                    unit,
                    max_depth as int,
                    depth as int,
                    j as int,
                ) == target,
            decreases n - j,
        {
            let last = j + 1 == n;
            let next_prefix = extend_prefix(children_prefix, connector_str(last));
            let next_children_prefix = extend_prefix(children_prefix, continuation_str(last));
            let next_depth: u32 = if max_depth == 0 {
                0
            } else {
                depth + 1
            };
            let ghost pre = out.deep_view();
            self.entries[j].print_rec(
                next_prefix.as_str(),
                next_children_prefix.as_str(),
                hide_size,
                unit,
                max_depth,
                next_depth,
                out,
            );
            proof {
                let gj = j as int;
                let block = render_entry(
                    cm[gj],
                    children_prefix@ + connector(gj == cm.len() - 1),
                    children_prefix@ + continuation(gj == cm.len() - 1),
                    hide_size,
                    unit,
                    max_depth as int,
                    depth as int + 1,
                );
                if max_depth == 0 {
                    lemma_render_unlimited(
                        cm[gj],
                        next_prefix@,
                        next_children_prefix@,
                        hide_size,
                        unit,
                        next_depth as int,
                        depth as int + 1,
                    );
                }
                assert(out.deep_view() == pre + block);
                assert(render_children(
                    cm,
                    children_prefix@,
                    hide_size,
                    unit,
                    max_depth as int,
                    depth as int,
                    gj,
                ) == block + render_children(
                    cm,
                    children_prefix@,
                    hide_size,
                    unit,
                    max_depth as int,
                    depth as int,
                    gj + 1,
                ));
                assert((pre + block) + render_children(
                    cm,
                    children_prefix@,
                    hide_size,
                    unit,
                    max_depth as int,
                    depth as int,
                    gj + 1,
                ) =~= pre + (block + render_children(
                    cm,
                    children_prefix@,
                    hide_size,
                    unit,
                    max_depth as int,
                    depth as int,
                    gj + 1,
                )));
            }
        }
        proof {
            assert(render_children(
                cm,
                children_prefix@,
                hide_size,
                unit,
                max_depth as int,
                depth as int,
                n as int,
            ) =~= Seq::<Seq<char>>::empty());
            assert(out.deep_view() =~= target);
        }
    }

    /// Renders this directory as the root of the output: its own line bare,
    /// each descendant behind the prefixes the connector rules build up.
    pub fn print(&self, hide_size: bool, unit: FileSizeFormat, max_depth: u32) -> (lines: Vec<
        String,
    >)
        ensures
            lines.deep_view() == render_entry(
                EntryModel::Dir(self@),
                Seq::<char>::empty(),
                Seq::<char>::empty(),
                hide_size,
                unit,
                max_depth as int,
                0,
            ),
    {
        let root_prefix = "";
        proof {
            reveal_strlit("");
            assert(root_prefix@ =~= Seq::<char>::empty());
        }
        let mut out: Vec<String> = Vec::new();
        proof {
            assert(out.deep_view() =~= Seq::<Seq<char>>::empty());
        }
        self.print_rec(root_prefix, root_prefix, hide_size, unit, max_depth, 0, &mut out);
        proof {
            assert(Seq::<Seq<char>>::empty() + render_entry(
                EntryModel::Dir(self@),
                Seq::<char>::empty(),
                Seq::<char>::empty(),
                hide_size,
                unit,
                max_depth as int,
                0,
            ) =~= render_entry(
                EntryModel::Dir(self@),
                Seq::<char>::empty(),
                Seq::<char>::empty(),
                hide_size,
                unit,
                max_depth as int,
                0,
            ));
        }
        out
    }
}

impl Tree {
    /// Renders the whole tree, one line per entry within the depth bound, in
    /// depth-first pre-order.
    pub fn print(&self, hide_size: bool, unit: FileSizeFormat, max_depth: u32) -> (lines: Vec<
        String,
    >)
        ensures
            lines.deep_view() == render_entry(
                EntryModel::Dir(self@),
                Seq::<char>::empty(),
                Seq::<char>::empty(),
                hide_size,
                unit,
                max_depth as int,
                0,
            ),
    {
        self.root.print(hide_size, unit, max_depth)
    }
}

} // verus!
