//! Sending: what goes out, in which order, and what the user is told of it.

use vstd::prelude::*;
use vstd::string::*;

use crate::ids;
use crate::ids::new_id;
use crate::paths;
use crate::paths::{
    above, ancestor, count_shared, file_name, parse, render_all, same_components, System,
};
use crate::proto::{
    CoreEvent, CoreEventView, DeviceInfo, DeviceInfoView, FileMeta, FileMetaView,
    ProgressThrottle, PROTOCOL_VERSION,
};
use crate::proto;
use crate::text;
use crate::text::{ascii_letter, cat, cat3, chars_of, same_text, split, to_decimal};

verus! {

/// More files than this are not sent at once.
pub const MAX_FILES: usize = 4096;

// ---------------------------------------------------------------------------
// Collecting files
// ---------------------------------------------------------------------------

/// What the file system holds at a path. Links are not followed.
#[derive(Debug)]
pub enum FsNode {
    /// What it is cannot be read.
    Unreadable { reason: String },
    File { size: u64 },
    Dir { entries: Vec<FsEntry> },
    /// A directory whose entries cannot be read.
    UnlistedDir { reason: String },
    /// Neither a file nor a directory.
    Other,
}

#[derive(Debug)]
pub struct FsEntry {
    pub path: String,
    pub node: FsNode,
}

/// A file that will be sent.
#[derive(Debug, PartialEq, Eq)]
pub struct PlannedFile {
    pub name: String,
    pub rel_path: String,
    pub size: u64,
    /// Where it lies on this device.
    pub source: String,
}

/// [`PlannedFile`] as the contracts speak of it.
#[verifier::ext_equal]
pub struct PlannedFileView {
    pub name: Seq<char>,
    pub rel_path: Seq<char>,
    pub size: u64,
    pub source: Seq<char>,
}

impl DeepView for PlannedFile {
    type V = PlannedFileView;

    open spec fn deep_view(&self) -> PlannedFileView {
        PlannedFileView {
            name: self.name.deep_view(),
            rel_path: self.rel_path.deep_view(),
            size: self.size.deep_view(),
            source: self.source.deep_view(),
        }
    }
}

impl Clone for PlannedFile {
    fn clone(&self) -> (r: Self)
        ensures
            r.deep_view() == self.deep_view(),
    {
        let r = PlannedFile {
            name: self.name.clone(),
            rel_path: self.rel_path.clone(),
            size: self.size,
            source: self.source.clone(),
        };
        r
    }
}

/// Why nothing can be sent.
#[derive(Debug, PartialEq, Eq)]
pub enum CollectError {
    Unreadable { path: String, reason: String },
    UnreadableDir { path: String, reason: String },
    Empty,
    TooMany(usize),
}

/// [`CollectError`] as the contracts speak of it.
#[verifier::ext_equal]
pub enum CollectErrorView {
    Unreadable { path: Seq<char>, reason: Seq<char> },
    UnreadableDir { path: Seq<char>, reason: Seq<char> },
    Empty,
    TooMany(usize),
}

impl DeepView for CollectError {
    type V = CollectErrorView;

    open spec fn deep_view(&self) -> CollectErrorView {
        match self {
            CollectError::Unreadable { path, reason } => CollectErrorView::Unreadable { path: path.deep_view(), reason: reason.deep_view() },
            CollectError::UnreadableDir { path, reason } => CollectErrorView::UnreadableDir { path: path.deep_view(), reason: reason.deep_view() },
            CollectError::Empty => CollectErrorView::Empty,
            CollectError::TooMany(a) => CollectErrorView::TooMany(a.deep_view()),
        }
    }
}

impl Clone for CollectError {
    fn clone(&self) -> (r: Self)
        ensures
            r.deep_view() == self.deep_view(),
    {
        match self {
            CollectError::Unreadable { path, reason } => CollectError::Unreadable { path: path.clone(), reason: reason.clone() },
            CollectError::UnreadableDir { path, reason } => CollectError::UnreadableDir { path: path.clone(), reason: reason.clone() },
            CollectError::Empty => CollectError::Empty,
            CollectError::TooMany(a) => CollectError::TooMany(*a),
        }
    }
}

/// The name of a file or directory.
pub open spec fn shown_name(p: Seq<char>, sys: System) -> Seq<char> {
    match paths::name_of(paths::components(p, sys)) {
        Some(n) => n,
        None => "file"@,
    }
}

pub fn file_name_of(p: &str, sys: System) -> (r: String)
    ensures
        r@ == shown_name(p@, sys),
{
    match file_name(p, sys) {
        Some(n) => n,
        None => "file".to_owned(),
    }
}

pub open spec fn planned(
    path: Seq<char>,
    rel_path: Seq<char>,
    size: u64,
    sys: System,
) -> PlannedFileView {
    PlannedFileView { name: shown_name(path, sys), rel_path, size, source: path }
}

/// The files below a directory whose relative path is `prefix`, in the order
/// of its entries; or the first directory whose entries cannot be read. What
/// cannot be read besides is left out.
pub open spec fn dir_plan(entries: Seq<FsEntry>, prefix: Seq<char>, sys: System) -> Result<
    Seq<PlannedFileView>,
    CollectErrorView,
>
    decreases entries,
{
    if entries.len() == 0 {
        Ok(Seq::empty())
    } else {
        let e = entries.last();
        let rel = prefix + "/"@ + shown_name(e.path@, sys);
        match dir_plan(entries.subrange(0, entries.len() - 1), prefix, sys) {
            Err(x) => Err(x),
            Ok(rows) => match e.node {
                FsNode::File { size } => Ok(rows.push(planned(e.path@, rel, size, sys))),
                FsNode::Dir { entries: inner } => match dir_plan(inner@, rel, sys) {
                    Err(x) => Err(x),
                    Ok(more) => Ok(rows + more),
                },
                FsNode::UnlistedDir { reason } => Err(
                    CollectErrorView::UnreadableDir { path: e.path@, reason: reason@ },
                ),
                FsNode::Unreadable { reason: _ } => Ok(rows),
                FsNode::Other => Ok(rows),
            },
        }
    }
}

/// The files at and below the paths that were chosen: a file goes by its
/// name, a directory brings its own name along.
pub open spec fn top_plan(
    chosen: Seq<FsEntry>,
    sys: System,
) -> Result<Seq<PlannedFileView>, CollectErrorView>
    decreases chosen.len(),
{
    if chosen.len() == 0 {
        Ok(Seq::empty())
    } else {
        let e = chosen.last();
        let name = shown_name(e.path@, sys);
        match top_plan(chosen.drop_last(), sys) {
            Err(x) => Err(x),
            Ok(rows) => match e.node {
                FsNode::File { size } => Ok(rows.push(planned(e.path@, name, size, sys))),
                FsNode::Dir { entries } => match dir_plan(entries@, name, sys) {
                    Err(x) => Err(x),
                    Ok(more) => Ok(rows + more),
                },
                FsNode::UnlistedDir { reason } => Err(
                    CollectErrorView::UnreadableDir { path: e.path@, reason: reason@ },
                ),
                FsNode::Unreadable { reason } => Err(
                    CollectErrorView::Unreadable { path: e.path@, reason: reason@ },
                ),
                FsNode::Other => Ok(rows),
            },
        }
    }
}

/// What is sent of the paths that were chosen.
pub open spec fn send_plan(
    chosen: Seq<FsEntry>,
    sys: System,
) -> Result<Seq<PlannedFileView>, CollectErrorView> {
    match top_plan(chosen, sys) {
        Err(x) => Err(x),
        Ok(rows) => if rows.len() == 0 {
            Err(CollectErrorView::Empty)
        } else if rows.len() > MAX_FILES {
            Err(CollectErrorView::TooMany(rows.len() as usize))
        } else {
            Ok(rows)
        },
    }
}

fn collect_dir(
    entries: &Vec<FsEntry>,
    prefix: &str,
    out: &mut Vec<PlannedFile>,
    sys: System,
) -> (r: Result<(), CollectError>)
    ensures
        match r {
            Ok(()) => {
                &&& dir_plan(entries@, prefix@, sys) is Ok
                &&& final(out).deep_view() == old(out).deep_view() + dir_plan(
                    entries@,
                    prefix@,
                    sys,
                )->Ok_0
            },
            Err(e) => dir_plan(entries@, prefix@, sys) == Err::<Seq<PlannedFileView>, _>(
                e.deep_view(),
            ),
        },
    decreases entries@,
{
    let ghost start = out.deep_view();
    let ghost all = entries@;
    let mut i: usize = 0;
    assert(all.subrange(0, 0) =~= Seq::<FsEntry>::empty());
    assert(out.deep_view() =~= start + Seq::<PlannedFileView>::empty());
    while i < entries.len()
        invariant
            all == entries@,
            i <= entries@.len(),
            dir_plan(all.subrange(0, i as int), prefix@, sys) is Ok,
            out.deep_view() == start + dir_plan(all.subrange(0, i as int), prefix@, sys)->Ok_0,
            start == old(out).deep_view(),
        decreases entries@.len() - i,
    {
        let e = &entries[i];
        let name = file_name_of(e.path.as_str(), sys);
        let rel = cat3(prefix, "/", name.as_str());
        let ghost upto = all.subrange(0, i + 1);
        let ghost before = out.deep_view();
        proof {
            assert(upto.subrange(0, i as int) =~= all.subrange(0, i as int));
            assert(upto.last() == *e);
            assert(decreases_to!(entries@ => entries@[i as int]));
        }
        match &e.node {
            FsNode::File { size } => {
                let row = PlannedFile {
                    name,
                    rel_path: rel,
                    size: *size,
                    source: e.path.clone(),
                };
                out.push(row);
                assert(out.deep_view() =~= before.push(
                    planned(e.path@, row.rel_path@, *size, sys),
                ));
                assert(out.deep_view() =~= start + dir_plan(upto, prefix@, sys)->Ok_0);
            },
            FsNode::Dir { entries: inner } => {
                match collect_dir(inner, rel.as_str(), out, sys) {
                    Ok(()) => {
                        assert(out.deep_view() =~= start + dir_plan(upto, prefix@, sys)->Ok_0);
                    },
                    Err(x) => {
                        proof {
                            lemma_dir_plan_stops(all, prefix@, i + 1, sys);
                        }
                        return Err(x);
                    },
                }
            },
            FsNode::UnlistedDir { reason } => {
                proof {
                    lemma_dir_plan_stops(all, prefix@, i + 1, sys);
                }
                return Err(
                    CollectError::UnreadableDir { path: e.path.clone(), reason: reason.clone() },
                );
            },
            FsNode::Unreadable { reason: _ } => {},
            FsNode::Other => {},
        }
        i = i + 1;
    }
    assert(all.subrange(0, i as int) =~= all);
    Ok(())
}

/// An error among the first entries is the error of all.
proof fn lemma_dir_plan_stops(all: Seq<FsEntry>, prefix: Seq<char>, n: int, sys: System)
    requires
        0 <= n <= all.len(),
        dir_plan(all.subrange(0, n), prefix, sys) is Err,
    ensures
        dir_plan(all, prefix, sys) == dir_plan(all.subrange(0, n), prefix, sys),
    decreases all.len() - n,
{
    if n == all.len() {
        assert(all.subrange(0, n) =~= all);
    } else {
        let next = all.subrange(0, n + 1);
        assert(next.subrange(0, n) =~= all.subrange(0, n));
        lemma_dir_plan_stops(all, prefix, n + 1, sys);
    }
}

proof fn lemma_top_plan_stops(all: Seq<FsEntry>, n: int, sys: System)
    requires
        0 <= n <= all.len(),
        top_plan(all.take(n), sys) is Err,
    ensures
        top_plan(all, sys) == top_plan(all.take(n), sys),
    decreases all.len() - n,
{
    if n == all.len() {
        assert(all.take(n) =~= all);
    } else {
        assert(all.take(n + 1).drop_last() =~= all.take(n));
        lemma_top_plan_stops(all, n + 1, sys);
    }
}

/// Whether some row is read from a path and has a size.
pub open spec fn is_sent(rows: Seq<PlannedFile>, path: Seq<char>, size: u64) -> bool {
    exists|k: int|
        0 <= k < rows.len() && (#[trigger] rows[k]).source@ == path && rows[k].size == size
}

fn collect_top(chosen: &Vec<FsEntry>, sys: System) -> (r: Result<Vec<PlannedFile>, CollectError>)
    ensures
        match r {
            Ok(rows) => top_plan(chosen@, sys) == Ok::<_, CollectErrorView>(rows.deep_view()),
            Err(e) => top_plan(chosen@, sys) == Err::<Seq<PlannedFileView>, _>(e.deep_view()),
        },
        r matches Ok(rows) ==> forall|i: int|
            0 <= i < chosen@.len() && (#[trigger] chosen@[i]).node is File ==> is_sent(
                rows@,
                chosen@[i].path@,
                chosen@[i].node->File_size,
            ),
{
    let ghost all = chosen@;
    let mut out: Vec<PlannedFile> = Vec::new();
    let mut i: usize = 0;
    assert(all.take(0) =~= Seq::<FsEntry>::empty());
    assert(out.deep_view() =~= Seq::<PlannedFileView>::empty());
    while i < chosen.len()
        invariant
            all == chosen@,
            i <= chosen@.len(),
            top_plan(all.take(i as int), sys) == Ok::<_, CollectErrorView>(out.deep_view()),
        decreases chosen@.len() - i,
    {
        let e = &chosen[i];
        let name = file_name_of(e.path.as_str(), sys);
        let ghost before = out.deep_view();
        proof {
            assert(all.take(i + 1).drop_last() =~= all.take(i as int));
            assert(all.take(i + 1).last() == *e);
        }
        match &e.node {
            FsNode::File { size } => {
                let rel_path = name.clone();
                let row = PlannedFile { name, rel_path, size: *size, source: e.path.clone() };
                out.push(row);
                assert(out.deep_view() =~= before.push(
                    planned(e.path@, row.rel_path@, *size, sys),
                ));
            },
            FsNode::Dir { entries } => {
                match collect_dir(entries, name.as_str(), &mut out, sys) {
                    Ok(()) => {},
                    Err(x) => {
                        proof {
                            lemma_top_plan_stops(all, i + 1, sys);
                        }
                        return Err(x);
                    },
                }
            },
            FsNode::UnlistedDir { reason } => {
                proof {
                    lemma_top_plan_stops(all, i + 1, sys);
                }
                return Err(
                    CollectError::UnreadableDir { path: e.path.clone(), reason: reason.clone() },
                );
            },
            FsNode::Unreadable { reason } => {
                proof {
                    lemma_top_plan_stops(all, i + 1, sys);
                }
                return Err(
                    CollectError::Unreadable { path: e.path.clone(), reason: reason.clone() },
                );
            },
            FsNode::Other => {},
        }
        i = i + 1;
    }
    assert(all.take(i as int) =~= all);
    proof {
        assert forall|i: int|
            0 <= i < chosen@.len() && (#[trigger] chosen@[i]).node is File implies is_sent(
            out@,
            chosen@[i].path@,
            chosen@[i].node->File_size,
        ) by {
            law_every_chosen_file_is_sent(chosen@, i, sys);
            let k = choose|k: int|
                0 <= k < top_plan(chosen@, sys)->Ok_0.len() && (#[trigger] top_plan(
                    chosen@,
                    sys,
                )->Ok_0[k]).source == chosen@[i].path@ && top_plan(chosen@, sys)->Ok_0[k].size
                    == chosen@[i].node->File_size;
            assert(out.deep_view()[k] == out@[k].deep_view());
        }
    }
    Ok(out)
}

/// The files to send, without ids.
pub fn plan_files(chosen: &Vec<FsEntry>, sys: System) -> (r: Result<Vec<PlannedFile>, CollectError>)
    ensures
        match r {
            Ok(rows) => send_plan(chosen@, sys) == Ok::<_, CollectErrorView>(rows.deep_view()),
            Err(e) => send_plan(chosen@, sys) == Err::<Seq<PlannedFileView>, _>(e.deep_view()),
        },
        r matches Ok(rows) ==> forall|i: int|
            0 <= i < chosen@.len() && (#[trigger] chosen@[i]).node is File ==> is_sent(
                rows@,
                chosen@[i].path@,
                chosen@[i].node->File_size,
            ),
{
    match collect_top(chosen, sys) {
        Err(e) => Err(e),
        Ok(rows) => {
            if rows.len() == 0 {
                Err(CollectError::Empty)
            } else if rows.len() > MAX_FILES {
                Err(CollectError::TooMany(rows.len()))
            } else {
                Ok(rows)
            }
        },
    }
}

/// The files to send with the ids that they were given.
pub open spec fn without_ids(files: Seq<(FileMetaView, Seq<char>)>) -> Seq<PlannedFileView> {
    Seq::new(
        files.len(),
        |i: int|
            PlannedFileView {
                name: files[i].0.name,
                rel_path: files[i].0.rel_path,
                size: files[i].0.size,
                source: files[i].1,
            },
    )
}

/// Collects the files at and below the paths that were chosen, and gives each
/// a random id.
pub fn collect_files(
    chosen: &Vec<FsEntry>,
    sys: System,
) -> (r: Result<Vec<(FileMeta, String)>, CollectError>)
    ensures
        match r {
            Ok(files) => {
                &&& send_plan(chosen@, sys) == Ok::<_, CollectErrorView>(
                    without_ids(files.deep_view()),
                )
                &&& forall|i: int|
                    0 <= i < files@.len() ==> ids::is_uuid_text(#[trigger] files@[i].0.id@)
            },
            Err(e) => send_plan(chosen@, sys) == Err::<Seq<PlannedFileView>, _>(e.deep_view()),
        },
{
    let rows = match plan_files(chosen, sys) {
        Err(e) => {
            return Err(e);
        },
        Ok(rows) => rows,
    };
    let ghost all = rows.deep_view();
    let mut out: Vec<(FileMeta, String)> = Vec::new();
    let mut i: usize = 0;
    while i < rows.len()
        invariant
            all == rows.deep_view(),
            i <= rows@.len(),
            out@.len() == i,
            forall|k: int| 0 <= k < i ==> ids::is_uuid_text(#[trigger] out@[k].0.id@),
            without_ids(out.deep_view()) =~= all.take(i as int),
        decreases rows@.len() - i,
    {
        let row = &rows[i];
        assert(all[i as int] == row.deep_view());
        let ghost before = out.deep_view();
        let ghost raw = out@;
        let meta = FileMeta {
            id: new_id(),
            name: row.name.clone(),
            rel_path: row.rel_path.clone(),
            size: row.size,
        };
        out.push((meta, row.source.clone()));
        assert(out.deep_view() =~= before.push((meta.deep_view(), row.source@)));
        assert forall|k: int| 0 <= k < i + 1 implies ids::is_uuid_text(
            #[trigger] out@[k].0.id@,
        ) by {
            if k < i {
                assert(out@[k] == raw[k]);
            }
        }
        i = i + 1;
    }
    assert(all.take(i as int) =~= all);
    Ok(out)
}

/// What the user is told when nothing can be sent.
pub open spec fn collect_message(e: CollectErrorView) -> Seq<char> {
    match e {
        CollectErrorView::Unreadable { path, reason: _ } => "读取 "@ + path + " 失败"@,
        CollectErrorView::UnreadableDir { path, reason: _ } => "读取目录 "@ + path
            + " 失败"@,
        CollectErrorView::Empty => "没有可发送的文件"@,
        CollectErrorView::TooMany(n) => "文件数过多（"@ + text::decimal(n as nat)
            + "），请分批发送"@,
    }
}

/// The same with what the system says of it.
pub open spec fn collect_full_message(e: CollectErrorView) -> Seq<char> {
    match e {
        CollectErrorView::Unreadable { path: _, reason } => collect_message(e) + ": "@ + reason,
        CollectErrorView::UnreadableDir { path: _, reason } => collect_message(e) + ": "@ + reason,
        _ => collect_message(e),
    }
}

impl CollectError {
    pub fn message(&self) -> (r: String)
        ensures
            r@ == collect_message(self.deep_view()),
    {
        match self {
            CollectError::Unreadable { path, reason: _ } => cat3(
                "读取 ",
                path.as_str(),
                " 失败",
            ),
            CollectError::UnreadableDir { path, reason: _ } => cat3(
                "读取目录 ",
                path.as_str(),
                " 失败",
            ),
            CollectError::Empty => "没有可发送的文件".to_owned(),
            CollectError::TooMany(n) => {
                let d = to_decimal(*n as u64);
                cat3("文件数过多（", d.as_str(), "），请分批发送")
            },
        }
    }

    pub fn full_message(&self) -> (r: String)
        ensures
            r@ == collect_full_message(self.deep_view()),
    {
        let m = self.message();
        match self {
            CollectError::Unreadable { path: _, reason } => cat3(
                m.as_str(),
                ": ",
                reason.as_str(),
            ),
            CollectError::UnreadableDir { path: _, reason } => cat3(
                m.as_str(),
                ": ",
                reason.as_str(),
            ),
            _ => m,
        }
    }
}

// ---------------------------------------------------------------------------
// Everything that was chosen is sent
// ---------------------------------------------------------------------------

/// What is sent of two lists of paths is what is sent of the first and then
/// what is sent of the second; the first path that cannot be sent stops all.
pub proof fn law_plans_add_up(a: Seq<FsEntry>, b: Seq<FsEntry>, sys: System)
    ensures
        top_plan(a + b, sys) is Ok <==> top_plan(a, sys) is Ok && top_plan(b, sys) is Ok,
        top_plan(a, sys) is Ok && top_plan(b, sys) is Ok ==> top_plan(a + b, sys)->Ok_0
            == top_plan(a, sys)->Ok_0 + top_plan(b, sys)->Ok_0,
        top_plan(a, sys) is Err ==> top_plan(a + b, sys) == top_plan(a, sys),
        top_plan(a, sys) is Ok && top_plan(b, sys) is Err ==> top_plan(a + b, sys) == top_plan(
            b,
            sys,
        ),
    decreases b.len(),
{
    let all = a + b;
    if b.len() == 0 {
        assert(all =~= a);
        if top_plan(a, sys) is Ok {
            assert(top_plan(a, sys)->Ok_0 + top_plan(b, sys)->Ok_0 =~= top_plan(a, sys)->Ok_0);
        }
    } else {
        law_plans_add_up(a, b.drop_last(), sys);
        assert(all.drop_last() =~= a + b.drop_last());
        assert(all.last() == b.last());
        if top_plan(a, sys) is Ok && top_plan(b, sys) is Ok {
            assert(top_plan(all, sys)->Ok_0 =~= top_plan(a, sys)->Ok_0 + top_plan(b, sys)->Ok_0);
        }
    }
}

/// One file that was chosen is one row: it goes under the name that it has,
/// with its size, and is read from where it was chosen.
pub proof fn law_chosen_file_is_one_row(e: FsEntry, size: u64, sys: System)
    requires
        e.node == (FsNode::File { size }),
    ensures
        top_plan(seq![e], sys) is Ok,
        top_plan(seq![e], sys)->Ok_0.len() == 1,
        ({
            let row = top_plan(seq![e], sys)->Ok_0[0];
            &&& row.source == e.path@
            &&& row.size == size
            &&& row.name == row.rel_path
            &&& paths::name_of(paths::components(e.path@, sys)) is Some ==> Some(row.name)
                == paths::name_of(paths::components(e.path@, sys))
            &&& paths::name_of(paths::components(e.path@, sys)) is None ==> row.name == "file"@
        }),
{
    assert(seq![e].drop_last() =~= Seq::<FsEntry>::empty());
    assert(top_plan(Seq::<FsEntry>::empty(), sys) == Ok::<_, CollectErrorView>(
        Seq::<PlannedFileView>::empty(),
    ));
    assert(seq![e].last() == e);
}

/// What is neither a file nor a directory adds nothing; what cannot be read
/// stops all, and the user is told which path and why.
pub proof fn law_chosen_path_that_is_no_file(e: FsEntry, sys: System)
    ensures
        e.node is Other ==> top_plan(seq![e], sys) == Ok::<_, CollectErrorView>(
            Seq::<PlannedFileView>::empty(),
        ),
        e.node matches FsNode::Unreadable { reason } ==> top_plan(seq![e], sys) == Err::<
            Seq<PlannedFileView>,
            _,
        >(CollectErrorView::Unreadable { path: e.path@, reason: reason@ }),
        e.node matches FsNode::UnlistedDir { reason } ==> top_plan(seq![e], sys) == Err::<
            Seq<PlannedFileView>,
            _,
        >(CollectErrorView::UnreadableDir { path: e.path@, reason: reason@ }),
{
    assert(seq![e].drop_last() =~= Seq::<FsEntry>::empty());
    assert(top_plan(Seq::<FsEntry>::empty(), sys) == Ok::<_, CollectErrorView>(
        Seq::<PlannedFileView>::empty(),
    ));
    assert(seq![e].last() == e);
}

/// Every file that was chosen is sent, whatever else was chosen before or
/// after it.
pub proof fn law_every_chosen_file_is_sent(chosen: Seq<FsEntry>, i: int, sys: System)
    requires
        0 <= i < chosen.len(),
        chosen[i].node is File,
        top_plan(chosen, sys) is Ok,
    ensures
        exists|k: int|
            0 <= k < top_plan(chosen, sys)->Ok_0.len() && (#[trigger] top_plan(
                chosen,
                sys,
            )->Ok_0[k]).source == chosen[i].path@ && top_plan(chosen, sys)->Ok_0[k].size
                == chosen[i].node->File_size,
{
    let a = chosen.take(i);
    let b = seq![chosen[i]];
    let c = chosen.skip(i + 1);
    assert((a + b) + c =~= chosen);
    law_plans_add_up(a, b, sys);
    law_plans_add_up(a + b, c, sys);
    law_chosen_file_is_one_row(chosen[i], chosen[i].node->File_size, sys);
    let ra = top_plan(a, sys)->Ok_0;
    let rb = top_plan(b, sys)->Ok_0;
    let all = top_plan(chosen, sys)->Ok_0;
    assert(all[ra.len() as int] == rb[0]);
}

/// What is found below two lists of entries of a directory is what is found
/// below the first and then what is found below the second.
pub proof fn law_directories_add_up(
    a: Seq<FsEntry>,
    b: Seq<FsEntry>,
    prefix: Seq<char>,
    sys: System,
)
    ensures
        dir_plan(a + b, prefix, sys) is Ok <==> dir_plan(a, prefix, sys) is Ok && dir_plan(
            b,
            prefix,
            sys,
        ) is Ok,
        dir_plan(a, prefix, sys) is Ok && dir_plan(b, prefix, sys) is Ok ==> dir_plan(
            a + b,
            prefix,
            sys,
        )->Ok_0 == dir_plan(a, prefix, sys)->Ok_0 + dir_plan(b, prefix, sys)->Ok_0,
        dir_plan(a, prefix, sys) is Err ==> dir_plan(a + b, prefix, sys) == dir_plan(
            a,
            prefix,
            sys,
        ),
        dir_plan(a, prefix, sys) is Ok && dir_plan(b, prefix, sys) is Err ==> dir_plan(
            a + b,
            prefix,
            sys,
        ) == dir_plan(b, prefix, sys),
    decreases b.len(),
{
    let all = a + b;
    if b.len() == 0 {
        assert(all =~= a);
        if dir_plan(a, prefix, sys) is Ok {
            assert(dir_plan(a, prefix, sys)->Ok_0 + dir_plan(b, prefix, sys)->Ok_0 =~= dir_plan(
                a,
                prefix,
                sys,
            )->Ok_0);
        }
    } else {
        let h = b.subrange(0, b.len() - 1);
        law_directories_add_up(a, h, prefix, sys);
        assert(all.subrange(0, all.len() - 1) =~= a + h);
        assert(all.last() == b.last());
        if dir_plan(a, prefix, sys) is Ok && dir_plan(b, prefix, sys) is Ok {
            assert(dir_plan(all, prefix, sys)->Ok_0 =~= dir_plan(a, prefix, sys)->Ok_0 + dir_plan(
                b,
                prefix,
                sys,
            )->Ok_0);
        }
    }
}

/// A directory that was chosen brings what lies below it, under its own name;
/// a directory inside brings what lies below it, under its own name below
/// the outer one.
pub proof fn law_directory_brings_its_name(
    path: String,
    inner: Vec<FsEntry>,
    prefix: Seq<char>,
    sys: System,
)
    ensures
        ({
            let e = FsEntry { path, node: FsNode::Dir { entries: inner } };
            let name = paths::name_of(paths::components(path@, sys));
            &&& name is Some ==> top_plan(seq![e], sys) == dir_plan(inner@, name->Some_0, sys)
            &&& name is Some ==> dir_plan(seq![e], prefix, sys) == dir_plan(
                inner@,
                prefix + seq!['/'] + name->Some_0,
                sys,
            )
        }),
{
    reveal_strlit("/");
    let e = FsEntry { path, node: FsNode::Dir { entries: inner } };
    let s = seq![e];
    assert(s.drop_last() =~= Seq::<FsEntry>::empty());
    assert(s.subrange(0, s.len() - 1) =~= Seq::<FsEntry>::empty());
    assert(s.last() == e);
    assert("/"@ =~= seq!['/']);
    assert(top_plan(Seq::<FsEntry>::empty(), sys) == Ok::<_, CollectErrorView>(
        Seq::<PlannedFileView>::empty(),
    ));
    assert(dir_plan(Seq::<FsEntry>::empty(), prefix, sys) == Ok::<_, CollectErrorView>(
        Seq::<PlannedFileView>::empty(),
    ));
    let name = paths::name_of(paths::components(path@, sys));
    if name is Some {
        match dir_plan(inner@, name->Some_0, sys) {
            Ok(more) => {
                assert(Seq::<PlannedFileView>::empty() + more =~= more);
            },
            Err(_) => {},
        }
        match dir_plan(inner@, prefix + "/"@ + name->Some_0, sys) {
            Ok(more) => {
                assert(Seq::<PlannedFileView>::empty() + more =~= more);
            },
            Err(_) => {},
        }
    }
}

/// A file in a directory is one row: it goes under its name below the
/// directory, with its size, and is read from where it lies. Whatever else
/// lies there and is no directory adds nothing.
pub proof fn law_file_in_a_directory_is_one_row(e: FsEntry, prefix: Seq<char>, sys: System)
    ensures
        e.node matches FsNode::File { size } ==> {
            &&& dir_plan(seq![e], prefix, sys) is Ok
            &&& dir_plan(seq![e], prefix, sys)->Ok_0.len() == 1
            &&& dir_plan(seq![e], prefix, sys)->Ok_0[0].source == e.path@
            &&& dir_plan(seq![e], prefix, sys)->Ok_0[0].size == size
            &&& dir_plan(seq![e], prefix, sys)->Ok_0[0].rel_path == prefix + seq!['/'] + dir_plan(
                seq![e],
                prefix,
                sys,
            )->Ok_0[0].name
            &&& paths::name_of(paths::components(e.path@, sys)) is Some ==> Some(
                dir_plan(seq![e], prefix, sys)->Ok_0[0].name,
            ) == paths::name_of(paths::components(e.path@, sys))
        },
        e.node is Unreadable || e.node is Other ==> dir_plan(seq![e], prefix, sys) == Ok::<
            _,
            CollectErrorView,
        >(Seq::<PlannedFileView>::empty()),
        e.node matches FsNode::UnlistedDir { reason } ==> dir_plan(seq![e], prefix, sys) == Err::<
            Seq<PlannedFileView>,
            _,
        >(CollectErrorView::UnreadableDir { path: e.path@, reason: reason@ }),
{
    reveal_strlit("/");
    let s = seq![e];
    assert(s.subrange(0, s.len() - 1) =~= Seq::<FsEntry>::empty());
    assert(s.last() == e);
    assert("/"@ =~= seq!['/']);
    assert(dir_plan(Seq::<FsEntry>::empty(), prefix, sys) == Ok::<_, CollectErrorView>(
        Seq::<PlannedFileView>::empty(),
    ));
}

/// Between one and 4096 files are sent, and all of them; else the
/// user is told why not.
pub proof fn law_whole_plan_is_sent(chosen: Seq<FsEntry>, sys: System)
    ensures
        send_plan(chosen, sys) is Ok ==> send_plan(chosen, sys) == top_plan(chosen, sys),
        top_plan(chosen, sys) is Err ==> send_plan(chosen, sys) == top_plan(chosen, sys),
        send_plan(chosen, sys) is Ok <==> top_plan(chosen, sys) is Ok && 1 <= top_plan(
            chosen,
            sys,
        )->Ok_0.len() <= 4096,
{
}

// ---------------------------------------------------------------------------
// What is collected is accepted
// ---------------------------------------------------------------------------

/// All directories and files below have names that the receiver's system takes
/// for plain names too.
pub open spec fn all_plain(entries: Seq<FsEntry>, sys: System, to: System) -> bool
    decreases entries,
{
    entries.len() > 0 ==> {
        &&& all_plain(entries.subrange(0, entries.len() - 1), sys, to)
        &&& paths::is_name(shown_name(entries.last().path@, sys), to)
        &&& match entries.last().node {
            FsNode::Dir { entries: inner } => all_plain(inner@, sys, to),
            _ => true,
        }
    }
}

proof fn lemma_plain_name(n: Seq<char>, to: System)
    requires
        paths::is_name(n, to),
        !paths::drive_in_front(n),
    ensures
        paths::is_safe_relative(n, to),
{
    paths::lemma_pieces_of_plain(n, '/', paths::sep_of(to));
    assert(!paths::parts(n, to).contains(seq!['.', '.']));
    assert(!paths::is_sep(n[0], to));
}

proof fn lemma_plain_step(prefix: Seq<char>, n: Seq<char>, to: System)
    requires
        paths::is_safe_relative(prefix, to),
        paths::is_name(n, to),
    ensures
        paths::is_safe_relative(prefix + "/"@ + n, to),
{
    reveal_strlit("/");
    let s = prefix + "/"@ + n;
    let up = seq!['.', '.'];
    assert(s =~= prefix.push('/') + n);
    paths::lemma_pieces_concat(prefix, '/', n, '/', paths::sep_of(to));
    paths::lemma_pieces_of_plain(n, '/', paths::sep_of(to));
    let p = paths::parts(prefix, to);
    let all = paths::parts(s, to);
    assert(all =~= p + seq![n]);
    if all.contains(up) {
        let i = choose|i: int| 0 <= i < all.len() && all[i] == up;
        if i < p.len() {
            assert(p[i] == up);
        }
    }
    assert(s[0] == prefix[0]);
    if prefix.len() > 1 {
        assert(s[1] == prefix[1]);
    } else {
        assert(s[1] == '/');
    }
}

/// Where the receiver takes all names for plain names, every file below a
/// directory gets a relative path that it accepts.
pub proof fn law_collected_paths_are_safe(
    entries: Seq<FsEntry>,
    prefix: Seq<char>,
    sys: System,
    to: System,
)
    requires
        all_plain(entries, sys, to),
        paths::is_safe_relative(prefix, to),
    ensures
        dir_plan(entries, prefix, sys) matches Ok(rows) ==> forall|i: int|
            0 <= i < rows.len() ==> paths::is_safe_relative((#[trigger] rows[i]).rel_path, to),
    decreases entries,
{
    if entries.len() > 0 {
        let h = entries.subrange(0, entries.len() - 1);
        let e = entries.last();
        let rel = prefix + "/"@ + shown_name(e.path@, sys);
        law_collected_paths_are_safe(h, prefix, sys, to);
        lemma_plain_step(prefix, shown_name(e.path@, sys), to);
        match e.node {
            FsNode::Dir { entries: inner } => {
                assert(decreases_to!(entries => entries[entries.len() - 1]));
                law_collected_paths_are_safe(inner@, rel, sys, to);
                if dir_plan(entries, prefix, sys) is Ok {
                    let rows = dir_plan(entries, prefix, sys)->Ok_0;
                    let head = dir_plan(h, prefix, sys)->Ok_0;
                    let more = dir_plan(inner@, rel, sys)->Ok_0;
                    assert forall|i: int| 0 <= i < rows.len() implies paths::is_safe_relative(
                        (#[trigger] rows[i]).rel_path,
                        to,
                    ) by {
                        if i < head.len() {
                            assert(rows[i] == head[i]);
                        } else {
                            assert(rows[i] == more[i - head.len()]);
                        }
                    }
                }
            },
            FsNode::File { size } => {
                if dir_plan(entries, prefix, sys) is Ok {
                    let rows = dir_plan(entries, prefix, sys)->Ok_0;
                    let head = dir_plan(h, prefix, sys)->Ok_0;
                    assert forall|i: int| 0 <= i < rows.len() implies paths::is_safe_relative(
                        (#[trigger] rows[i]).rel_path,
                        to,
                    ) by {
                        if i < head.len() {
                            assert(rows[i] == head[i]);
                        }
                    }
                }
            },
            _ => {},
        }
    }
}

/// Where the receiver takes all names for plain names, and none that was chosen
/// begins like a drive, it accepts every file that is collected.
pub proof fn law_chosen_paths_are_safe(chosen: Seq<FsEntry>, sys: System, to: System)
    requires
        all_plain(chosen, sys, to),
        forall|i: int|
            0 <= i < chosen.len() ==> !paths::drive_in_front(
                shown_name((#[trigger] chosen[i]).path@, sys),
            ),
    ensures
        top_plan(chosen, sys) matches Ok(rows) ==> forall|i: int|
            0 <= i < rows.len() ==> paths::is_safe_relative((#[trigger] rows[i]).rel_path, to),
    decreases chosen.len(),
{
    if chosen.len() > 0 {
        let h = chosen.drop_last();
        let e = chosen.last();
        let name = shown_name(e.path@, sys);
        assert(chosen.subrange(0, chosen.len() - 1) =~= h);
        assert(chosen[chosen.len() - 1] == e);
        assert forall|i: int| 0 <= i < h.len() implies !paths::drive_in_front(
            shown_name((#[trigger] h[i]).path@, sys),
        ) by {
            assert(h[i] == chosen[i]);
        }
        law_chosen_paths_are_safe(h, sys, to);
        lemma_plain_name(name, to);
        match e.node {
            FsNode::Dir { entries } => {
                law_collected_paths_are_safe(entries@, name, sys, to);
            },
            _ => {},
        }
        if top_plan(chosen, sys) is Ok {
            let rows = top_plan(chosen, sys)->Ok_0;
            let head = top_plan(h, sys)->Ok_0;
            assert forall|i: int| 0 <= i < rows.len() implies paths::is_safe_relative(
                (#[trigger] rows[i]).rel_path,
                to,
            ) by {
                if i < head.len() {
                    assert(rows[i] == head[i]);
                } else {
                    match e.node {
                        FsNode::Dir { entries } => {
                            assert(rows[i] == dir_plan(entries@, name, sys)->Ok_0[i - head.len()]);
                        },
                        _ => {},
                    }
                }
            }
        }
    }
}

// ---------------------------------------------------------------------------
// Showing and opening what was transferred
// ---------------------------------------------------------------------------

/// How many names a relative path is made of.
pub open spec fn depth(rel: Seq<char>) -> int {
    text::pieces(rel, '/', '/').len() as int
}

/// What to show in the file manager of a file that was saved or sent: the
/// folder that was transferred, or the file itself where there is none.
pub open spec fn target_text(rel: Seq<char>, p: Seq<char>, sys: System) -> Option<Seq<char>> {
    if depth(rel) >= 2 {
        paths::ancestor_text(p, depth(rel) - 1, sys)
    } else {
        Some(p)
    }
}

fn segments(rel: &str) -> (r: Vec<String>)
    ensures
        r.deep_view() == text::pieces(rel@, '/', '/'),
        r@.len() == depth(rel@),
        r@.len() > 0,
{
    let v = chars_of(rel);
    assert(v@.skip(0) =~= v@);
    proof {
        text::lemma_pieces_nonempty(rel@, '/', '/');
    }
    let r = split(&v, 0, '/', '/');
    assert(r.deep_view().len() == r@.len());
    r
}

/// The saved path goes before the source.
pub fn open_target(
    rel_path: &str,
    saved: Option<&str>,
    source: Option<&str>,
    sys: System,
) -> (r: Option<String>)
    ensures
        r.deep_view() == (match saved {
            Some(p) => target_text(rel_path@, p@, sys),
            None => match source {
                Some(p) => target_text(rel_path@, p@, sys),
                None => None,
            },
        }),
{
    let p = match saved {
        Some(p) => p,
        None => match source {
            Some(p) => p,
            None => {
                return None;
            },
        },
    };
    let segs = segments(rel_path);
    if segs.len() >= 2 {
        ancestor(p, segs.len() - 1, sys)
    } else {
        Some(p.to_owned())
    }
}

pub open spec fn views(s: Seq<&str>) -> Seq<Seq<char>> {
    Seq::new(s.len(), |i: int| s[i]@)
}

/// The folder that a relative path begins with.
pub open spec fn folder_of(rel: Seq<char>) -> Option<Seq<char>> {
    if depth(rel) >= 2 {
        Some(text::pieces(rel, '/', '/')[0])
    } else {
        None
    }
}

/// The one folder that all paths lie in, else how many files there are.
pub open spec fn batch_name(rels: Seq<Seq<char>>) -> Seq<char> {
    if rels.len() > 0 && folder_of(rels[0]) is Some && forall|i: int|
        0 <= i < rels.len() ==> folder_of(#[trigger] rels[i]) == folder_of(rels[0]) {
        folder_of(rels[0])->Some_0
    } else {
        text::decimal(rels.len()) + " 个文件"@
    }
}

fn count_text(n: usize) -> (r: String)
    ensures
        r@ == text::decimal(n as nat) + " 个文件"@,
{
    let d = to_decimal(n as u64);
    cat(d.as_str(), " 个文件")
}

pub fn batch_display_name(rel_paths: &[&str]) -> (r: String)
    ensures
        r@ == batch_name(views(rel_paths@)),
{
    let ghost all = views(rel_paths@);
    let n: usize = rel_paths.len();
    if n == 0 {
        return count_text(n);
    }
    let first = segments(rel_paths[0]);
    assert(all[0] == rel_paths@[0]@);
    if first.len() < 2 {
        return count_text(n);
    }
    assert(first.deep_view()[0] == first@[0]@);
    let mut i: usize = 1;
    while i < n
        invariant
            n == rel_paths@.len(),
            all == views(rel_paths@),
            1 <= i <= n,
            first.deep_view() == text::pieces(all[0], '/', '/'),
            first@.len() >= 2,
            first.deep_view()[0] == first@[0]@,
            folder_of(all[0]) == Some(first@[0]@),
            forall|k: int| 0 <= k < i ==> folder_of(#[trigger] all[k]) == folder_of(all[0]),
        decreases n - i,
    {
        let segs = segments(rel_paths[i]);
        assert(all[i as int] == rel_paths@[i as int]@);
        assert(segs.deep_view()[0] == segs@[0]@);
        if segs.len() < 2 || !same_text(segs[0].as_str(), first[0].as_str()) {
            assert(folder_of(all[i as int]) != folder_of(all[0]));
            return count_text(n);
        }
        i = i + 1;
    }
    first[0].clone()
}

/// The components that all paths begin with.
pub open spec fn common_comps(ps: Seq<Seq<paths::Comp>>) -> Seq<paths::Comp>
    decreases ps.len(),
{
    if ps.len() == 0 {
        Seq::empty()
    } else if ps.len() == 1 {
        ps[0]
    } else {
        let c = common_comps(ps.drop_last());
        c.take(paths::shared_len(c, ps.last()))
    }
}

/// The system that a path is read for: one that begins with a drive and a
/// backslash comes from Windows, whatever the system here.
pub open spec fn native(p: Seq<char>, sys: System) -> System {
    if paths::drive_in_front(p) && p.len() > 2 && p[2] == '\\' {
        System::Windows
    } else {
        sys
    }
}

pub fn native_system(p: &str, sys: System) -> (r: System)
    ensures
        r == native(p@, sys),
{
    let v = chars_of(p);
    if v.len() > 2 && ascii_letter(v[0]) && v[1] == ':' && v[2] == '\\' {
        System::Windows
    } else {
        sys
    }
}

pub open spec fn all_comps(ps: Seq<Seq<char>>, sys: System) -> Seq<Seq<paths::Comp>> {
    Seq::new(ps.len(), |i: int| paths::components(ps[i], native(ps[i], sys)))
}

/// The deepest directory that holds all paths. Fewer than two paths have
/// none, nor have paths that share nothing; where the paths share one of
/// themselves, it is the directory above that one.
pub open spec fn common_dir(ps: Seq<Seq<char>>, sys: System) -> Option<Seq<char>> {
    let c = common_comps(all_comps(ps, sys));
    if ps.len() < 2 || c.len() == 0 {
        None
    } else if all_comps(ps, sys).contains(c) {
        match paths::ancestor_comps(c, 1) {
            Some(d) => Some(paths::rendered(d, native(ps[0], sys))),
            None => None,
        }
    } else {
        Some(paths::rendered(c, native(ps[0], sys)))
    }
}

/// The common components begin every path, and nothing longer does.
pub proof fn law_common_dir_is_deepest(ps: Seq<Seq<paths::Comp>>)
    requires
        ps.len() > 0,
    ensures
        forall|i: int| 0 <= i < ps.len() ==> common_comps(ps).is_prefix_of(#[trigger] ps[i]),
        forall|d: Seq<paths::Comp>|
            (forall|i: int| 0 <= i < ps.len() ==> d.is_prefix_of(#[trigger] ps[i]))
                ==> #[trigger] d.is_prefix_of(common_comps(ps)),
    decreases ps.len(),
{
    if ps.len() > 1 {
        let h = ps.drop_last();
        let c = common_comps(h);
        let last = ps.last();
        let n = paths::shared_len(c, last);
        let r = common_comps(ps);
        law_common_dir_is_deepest(h);
        paths::law_shared_is_longest_prefix(c, last);
        assert forall|i: int| 0 <= i < ps.len() implies r.is_prefix_of(#[trigger] ps[i]) by {
            if i < h.len() {
                assert(c.is_prefix_of(h[i]));
                assert(r =~= ps[i].subrange(0, n));
            } else {
                assert(r =~= last.subrange(0, n));
            }
        }
        assert forall|d: Seq<paths::Comp>|
            (forall|i: int| 0 <= i < ps.len() ==> d.is_prefix_of(#[trigger] ps[i]))
            implies #[trigger] d.is_prefix_of(r) by {
            assert forall|i: int| 0 <= i < h.len() implies d.is_prefix_of(#[trigger] h[i]) by {
                assert(h[i] == ps[i]);
            }
            assert(d.is_prefix_of(c));
            assert(d.is_prefix_of(ps[ps.len() - 1]));
            let m = d.len() as int;
            assert(c.take(m) =~= d);
            assert(last.take(m) =~= d);
            if m > n {
                assert(c.take(m) != last.take(m));
            }
            assert(d =~= r.subrange(0, m));
        }
    } else {
        assert(ps[0].is_prefix_of(ps[0])) by {
            assert(ps[0].subrange(0, ps[0].len() as int) =~= ps[0]);
        }
    }
}

pub fn common_ancestor_dir(paths: &[String], sys: System) -> (r: Option<String>)
    ensures
        r.deep_view() == common_dir(Seq::new(paths@.len(), |i: int| paths@[i]@), sys),
{
    let ghost all = Seq::new(paths@.len(), |i: int| paths@[i]@);
    let ghost comps = all_comps(all, sys);
    let n: usize = paths.len();
    if n < 2 {
        return None;
    }
    let from = native_system(paths[0].as_str(), sys);
    let mut anc = parse(paths[0].as_str(), from);
    let mut i: usize = 1;
    proof {
        assert(comps.take(1)[0] == comps[0]);
    }
    while i < n
        invariant
            n == paths@.len(),
            all == Seq::new(paths@.len(), |k: int| paths@[k]@),
            comps == all_comps(all, sys),
            1 <= i <= n,
            anc.deep_view() == common_comps(comps.take(i as int)),
        decreases n - i,
    {
        let c = parse(paths[i].as_str(), native_system(paths[i].as_str(), sys));
        let k = count_shared(&anc, &c);
        let ghost before = anc.deep_view();
        anc.truncate(k);
        proof {
            assert(anc.deep_view() =~= before.take(k as int));
            assert(comps.take(i + 1).drop_last() =~= comps.take(i as int));
            assert(comps.take(i + 1).last() == c.deep_view());
        }
        i = i + 1;
    }
    assert(comps.take(i as int) =~= comps);
    if anc.len() == 0 {
        return None;
    }
    let mut j: usize = 0;
    while j < n
        invariant
            n == paths@.len(),
            n >= 2,
            all == Seq::new(paths@.len(), |k: int| paths@[k]@),
            comps == all_comps(all, sys),
            j <= n,
            anc.deep_view() == common_comps(comps),
            anc@.len() > 0,
            from == native(all[0], sys),
            forall|k: int| 0 <= k < j ==> #[trigger] comps[k] != anc.deep_view(),
        decreases n - j,
    {
        let c = parse(paths[j].as_str(), native_system(paths[j].as_str(), sys));
        assert(comps[j as int] == c.deep_view());
        if same_components(&anc, &c) {
            proof {
                assert(comps.contains(anc.deep_view()));
            }
            return above(&anc, from);
        }
        j = j + 1;
    }
    proof {
        if comps.contains(anc.deep_view()) {
            let k = choose|k: int| 0 <= k < comps.len() && comps[k] == anc.deep_view();
            assert(comps[k] != anc.deep_view());
        }
    }
    Some(render_all(&anc, from))
}

// ---------------------------------------------------------------------------
// Requests
// ---------------------------------------------------------------------------

pub open spec fn is_success(code: u16) -> bool {
    200 <= code < 300
}

pub open spec fn refused_text(status: Seq<char>) -> Seq<char> {
    "对方返回 "@ + status
}

/// How the other side answered: not at all, or with a status.
#[derive(Debug, PartialEq, Eq)]
pub enum HttpReply {
    Unreachable { cause: String },
    Status { code: u16, text: String },
}

/// [`HttpReply`] as the contracts speak of it.
#[verifier::ext_equal]
pub enum HttpReplyView {
    Unreachable { cause: Seq<char> },
    Status { code: u16, text: Seq<char> },
}

impl DeepView for HttpReply {
    type V = HttpReplyView;

    open spec fn deep_view(&self) -> HttpReplyView {
        match self {
            HttpReply::Unreachable { cause } => HttpReplyView::Unreachable { cause: cause.deep_view() },
            HttpReply::Status { code, text } => HttpReplyView::Status { code: code.deep_view(), text: text.deep_view() },
        }
    }
}

impl Clone for HttpReply {
    fn clone(&self) -> (r: Self)
        ensures
            r.deep_view() == self.deep_view(),
    {
        match self {
            HttpReply::Unreachable { cause } => HttpReply::Unreachable { cause: cause.clone() },
            HttpReply::Status { code, text } => HttpReply::Status { code: *code, text: text.clone() },
        }
    }
}

/// What went wrong with a text message, where something did.
pub open spec fn text_failure(reply: HttpReplyView) -> Option<Seq<char>> {
    match reply {
        HttpReplyView::Unreachable { cause } => Some("连接对方失败: "@ + cause),
        HttpReplyView::Status { code, text } => if is_success(code) {
            None
        } else {
            Some(refused_text(text))
        },
    }
}

pub fn text_error(reply: &HttpReply) -> (r: Option<String>)
    ensures
        r.deep_view() == text_failure(reply.deep_view()),
{
    match reply {
        HttpReply::Unreachable { cause } => Some(cat("连接对方失败: ", cause.as_str())),
        HttpReply::Status { code, text } => if 200 <= *code && *code < 300 {
            None
        } else {
            Some(cat("对方返回 ", text.as_str()))
        },
    }
}

/// What the user is told when a text message did not get through.
pub open spec fn text_report(base: Seq<char>, reply: HttpReplyView) -> Option<CoreEventView> {
    match text_failure(reply) {
        Some(m) => Some(
            CoreEventView::Error {
                context: "发送消息"@,
                message: "发送到 "@ + base + " 失败："@ + m,
            },
        ),
        None => None,
    }
}

pub fn text_sent(base: &str, reply: &HttpReply) -> (r: Option<CoreEvent>)
    ensures
        r.deep_view() == text_report(base@, reply.deep_view()),
{
    match text_error(reply) {
        Some(m) => {
            let mut message = cat3("发送到 ", base, " 失败：");
            message.append(m.as_str());
            Some(CoreEvent::Error { context: "发送消息".to_owned(), message })
        },
        None => None,
    }
}

pub fn message_url(base: &str) -> (r: String)
    ensures
        r@ == base@ + "/api/message"@,
{
    cat(base, "/api/message")
}

pub fn prepare_url(base: &str) -> (r: String)
    ensures
        r@ == base@ + "/api/transfer/prepare"@,
{
    cat(base, "/api/transfer/prepare")
}

pub fn info_url(base: &str) -> (r: String)
    ensures
        r@ == base@ + "/api/info"@,
{
    cat(base, "/api/info")
}

pub open spec fn cancel_text(base: Seq<char>, token: Seq<char>) -> Seq<char> {
    base + "/api/transfer/cancel/"@ + token
}

pub fn cancel_url(base: &str, token: &str) -> (r: String)
    ensures
        r@ == cancel_text(base@, token@),
{
    cat3(base, "/api/transfer/cancel/", token)
}

pub open spec fn upload_text(base: Seq<char>, token: Seq<char>, file_id: Seq<char>) -> Seq<char> {
    base + "/api/transfer/upload/"@ + token + "/"@ + file_id
}

pub fn upload_url(base: &str, token: &str, file_id: &str) -> (r: String)
    ensures
        r@ == upload_text(base@, token@, file_id@),
{
    let mut out = cat3(base, "/api/transfer/upload/", token);
    out.append("/");
    out.append(file_id);
    out
}

/// Whether a device that was asked who it is can be talked to.
pub open spec fn probe_outcome(reply: HttpReplyView, info: Option<DeviceInfoView>, parse_cause: Seq<
    char,
>) -> Result<DeviceInfoView, Seq<char>> {
    match reply {
        HttpReplyView::Unreachable { cause } => Err(
            "连接失败，请检查 IP 与端口: "@ + cause,
        ),
        HttpReplyView::Status { code, text } => if !is_success(code) {
            Err(refused_text(text))
        } else {
            match info {
                None => Err("对方不是 LocalTransfer 设备: "@ + parse_cause),
                Some(i) => if i.v != PROTOCOL_VERSION {
                    Err("协议版本不兼容（对方 v"@ + text::decimal(i.v as nat) + "）"@)
                } else {
                    Ok(i)
                },
            }
        },
    }
}

/// Judges the answer to the question who a device is. `info` is the body,
/// where it could be read; `parse_cause` says why not.
pub fn probe_info(reply: &HttpReply, info: Option<DeviceInfo>, parse_cause: &str) -> (r: Result<
    DeviceInfo,
    String,
>)
    ensures
        match r {
            Ok(i) => probe_outcome(reply.deep_view(), info.deep_view(), parse_cause@) == Ok::<
                _,
                Seq<char>,
            >(i.deep_view()),
            Err(e) => probe_outcome(reply.deep_view(), info.deep_view(), parse_cause@) == Err::<
                DeviceInfoView,
                _,
            >(e@),
        },
{
    match reply {
        HttpReply::Unreachable { cause } => Err(
            cat("连接失败，请检查 IP 与端口: ", cause.as_str()),
        ),
        HttpReply::Status { code, text } => {
            if !(200 <= *code && *code < 300) {
                return Err(cat("对方返回 ", text.as_str()));
            }
            match info {
                None => Err(cat("对方不是 LocalTransfer 设备: ", parse_cause)),
                Some(i) => if i.v != PROTOCOL_VERSION {
                    let v = to_decimal(i.v as u64);
                    Err(cat3("协议版本不兼容（对方 v", v.as_str(), "）"))
                } else {
                    Ok(i)
                },
            }
        },
    }
}

// ---------------------------------------------------------------------------
// Sending files
// ---------------------------------------------------------------------------

/// How the other side answered the request to send: the token is missing
/// where the body could not be read.
#[derive(Debug, PartialEq, Eq)]
pub enum PrepareReply {
    Unreachable,
    Reply { code: u16, text: String, token: Option<String> },
}

/// [`PrepareReply`] as the contracts speak of it.
#[verifier::ext_equal]
pub enum PrepareReplyView {
    Unreachable,
    Reply { code: u16, text: Seq<char>, token: Option<Seq<char>> },
}

impl DeepView for PrepareReply {
    type V = PrepareReplyView;

    open spec fn deep_view(&self) -> PrepareReplyView {
        match self {
            PrepareReply::Unreachable => PrepareReplyView::Unreachable,
            PrepareReply::Reply { code, text, token } => PrepareReplyView::Reply { code: code.deep_view(), text: text.deep_view(), token: token.deep_view() },
        }
    }
}

impl Clone for PrepareReply {
    fn clone(&self) -> (r: Self)
        ensures
            r.deep_view() == self.deep_view(),
    {
        match self {
            PrepareReply::Unreachable => PrepareReply::Unreachable,
            PrepareReply::Reply { code, text, token } => PrepareReply::Reply { code: *code, text: text.clone(), token: token.clone() },
        }
    }
}

/// How an upload went.
#[derive(Debug, PartialEq, Eq)]
pub enum UploadReply {
    /// The file could not be opened.
    NotOpened,
    Unreachable { cause: String },
    Reply { code: u16, text: String },
}

/// [`UploadReply`] as the contracts speak of it.
#[verifier::ext_equal]
pub enum UploadReplyView {
    NotOpened,
    Unreachable { cause: Seq<char> },
    Reply { code: u16, text: Seq<char> },
}

impl DeepView for UploadReply {
    type V = UploadReplyView;

    open spec fn deep_view(&self) -> UploadReplyView {
        match self {
            UploadReply::NotOpened => UploadReplyView::NotOpened,
            UploadReply::Unreachable { cause } => UploadReplyView::Unreachable { cause: cause.deep_view() },
            UploadReply::Reply { code, text } => UploadReplyView::Reply { code: code.deep_view(), text: text.deep_view() },
        }
    }
}

impl Clone for UploadReply {
    fn clone(&self) -> (r: Self)
        ensures
            r.deep_view() == self.deep_view(),
    {
        match self {
            UploadReply::NotOpened => UploadReply::NotOpened,
            UploadReply::Unreachable { cause } => UploadReply::Unreachable { cause: cause.clone() },
            UploadReply::Reply { code, text } => UploadReply::Reply { code: *code, text: text.clone() },
        }
    }
}

/// What the sender does next.
#[derive(Debug, PartialEq, Eq)]
pub enum SendStep {
    Upload { index: usize, url: String, path: String },
    /// Gives up; the receiver is told at `notify`, where it can be.
    Abort { notify: Option<String>, reason: String },
    Done,
}

/// [`SendStep`] as the contracts speak of it.
#[verifier::ext_equal]
pub enum SendStepView {
    Upload { index: usize, url: Seq<char>, path: Seq<char> },
    Abort { notify: Option<Seq<char>>, reason: Seq<char> },
    Done,
}

impl DeepView for SendStep {
    type V = SendStepView;

    open spec fn deep_view(&self) -> SendStepView {
        match self {
            SendStep::Upload { index, url, path } => SendStepView::Upload { index: index.deep_view(), url: url.deep_view(), path: path.deep_view() },
            SendStep::Abort { notify, reason } => SendStepView::Abort { notify: notify.deep_view(), reason: reason.deep_view() },
            SendStep::Done => SendStepView::Done,
        }
    }
}

impl Clone for SendStep {
    fn clone(&self) -> (r: Self)
        ensures
            r.deep_view() == self.deep_view(),
    {
        match self {
            SendStep::Upload { index, url, path } => SendStep::Upload { index: *index, url: url.clone(), path: path.clone() },
            SendStep::Abort { notify, reason } => SendStep::Abort { notify: notify.clone(), reason: reason.clone() },
            SendStep::Done => SendStep::Done,
        }
    }
}

/// A set of files on its way out.
#[derive(Debug, PartialEq, Eq)]
pub struct SendFlow {
    /// Where the receiver answers.
    pub base: String,
    pub transfer_id: String,
    pub peer_id: String,
    pub peer_name: String,
    /// Each file with where it lies.
    pub files: Vec<(FileMeta, String)>,
    /// What the receiver knows the transfer by, once it has agreed.
    pub token: String,
    /// The file that is up.
    pub next: usize,
}

/// [`SendFlow`] as the contracts speak of it.
#[verifier::ext_equal]
pub struct SendFlowView {
    pub base: Seq<char>,
    pub transfer_id: Seq<char>,
    pub peer_id: Seq<char>,
    pub peer_name: Seq<char>,
    pub files: Seq<(FileMetaView, Seq<char>)>,
    pub token: Seq<char>,
    pub next: usize,
}

impl DeepView for SendFlow {
    type V = SendFlowView;

    open spec fn deep_view(&self) -> SendFlowView {
        SendFlowView {
            base: self.base.deep_view(),
            transfer_id: self.transfer_id.deep_view(),
            peer_id: self.peer_id.deep_view(),
            peer_name: self.peer_name.deep_view(),
            files: self.files.deep_view(),
            token: self.token.deep_view(),
            next: self.next.deep_view(),
        }
    }
}

pub open spec fn metas_of(files: Seq<(FileMetaView, Seq<char>)>) -> Seq<FileMetaView> {
    Seq::new(files.len(), |i: int| files[i].0)
}

pub open spec fn sources_of(files: Seq<(FileMetaView, Seq<char>)>) -> Seq<Seq<char>> {
    Seq::new(files.len(), |i: int| files[i].1)
}

pub fn metas(files: &Vec<(FileMeta, String)>) -> (r: Vec<FileMeta>)
    ensures
        r.deep_view() == metas_of(files.deep_view()),
{
    let ghost all = files.deep_view();
    let mut out: Vec<FileMeta> = Vec::new();
    let mut i: usize = 0;
    while i < files.len()
        invariant
            all == files.deep_view(),
            i <= files@.len(),
            out.deep_view() =~= metas_of(all).take(i as int),
        decreases files@.len() - i,
    {
        assert(all[i as int] == files@[i as int].deep_view());
        let ghost before = out.deep_view();
        let m = files[i].0.clone();
        out.push(m);
        assert(out.deep_view() =~= before.push(m.deep_view()));
        i = i + 1;
    }
    assert(metas_of(all).take(i as int) =~= metas_of(all));
    out
}

fn sources(files: &Vec<(FileMeta, String)>) -> (r: Vec<String>)
    ensures
        r.deep_view() == sources_of(files.deep_view()),
{
    let ghost all = files.deep_view();
    let mut out: Vec<String> = Vec::new();
    let mut i: usize = 0;
    while i < files.len()
        invariant
            all == files.deep_view(),
            i <= files@.len(),
            out.deep_view() =~= sources_of(all).take(i as int),
        decreases files@.len() - i,
    {
        assert(all[i as int] == files@[i as int].deep_view());
        let ghost before = out.deep_view();
        let p = files[i].1.clone();
        out.push(p);
        assert(out.deep_view() =~= before.push(p@));
        i = i + 1;
    }
    assert(sources_of(all).take(i as int) =~= sources_of(all));
    out
}

/// The upload that is up, unless everything is sent or the user has
/// cancelled.
pub open spec fn flow_step(f: SendFlowView, cancelled: bool) -> SendStepView {
    if f.next >= f.files.len() {
        SendStepView::Done
    } else if cancelled {
        SendStepView::Abort {
            notify: Some(cancel_text(f.base, f.token)),
            reason: "已取消"@,
        }
    } else {
        SendStepView::Upload {
            index: f.next,
            url: upload_text(f.base, f.token, f.files[f.next as int].0.id),
            path: f.files[f.next as int].1,
        }
    }
}

/// The flow after the receiver has answered the request.
pub open spec fn flow_after_prepare(f: SendFlowView, reply: PrepareReplyView) -> SendFlowView {
    match reply {
        PrepareReplyView::Reply { code, text: _, token: Some(t) } => if is_success(code) {
            SendFlowView { token: t, next: 0, ..f }
        } else {
            f
        },
        _ => f,
    }
}

pub open spec fn step_after_prepare(
    f: SendFlowView,
    reply: PrepareReplyView,
    cancelled: bool,
) -> SendStepView {
    match reply {
        PrepareReplyView::Unreachable => SendStepView::Abort {
            notify: None,
            reason: "连接对方失败"@,
        },
        PrepareReplyView::Reply { code, text, token } => if code == 403 {
            SendStepView::Abort { notify: None, reason: "对方拒绝了传输"@ }
        } else if !is_success(code) {
            SendStepView::Abort { notify: None, reason: refused_text(text) }
        } else if token is None {
            SendStepView::Abort { notify: None, reason: "解析对方响应失败"@ }
        } else {
            flow_step(flow_after_prepare(f, reply), cancelled)
        },
    }
}

pub open spec fn flow_after_upload(f: SendFlowView, reply: UploadReplyView) -> SendFlowView {
    match reply {
        UploadReplyView::Reply { code, text: _ } => if is_success(code) {
            SendFlowView { next: (f.next + 1) as usize, ..f }
        } else {
            f
        },
        _ => f,
    }
}

/// After an upload comes the next one. A failed one ends the transfer; the
/// receiver is told, unless the file could not be opened, or the connection
/// broke because the user cancelled.
pub open spec fn step_after_upload(
    f: SendFlowView,
    reply: UploadReplyView,
    cancelled: bool,
) -> SendStepView {
    let told = Some(cancel_text(f.base, f.token));
    match reply {
        UploadReplyView::NotOpened => SendStepView::Abort {
            notify: None,
            reason: "打开 "@ + f.files[f.next as int].1 + " 失败"@,
        },
        UploadReplyView::Unreachable { cause } => SendStepView::Abort {
            notify: if cancelled {
                None
            } else {
                told
            },
            reason: "网络错误："@ + cause,
        },
        UploadReplyView::Reply { code, text } => if is_success(code) {
            flow_step(flow_after_upload(f, reply), cancelled)
        } else if code == 409 {
            SendStepView::Abort { notify: told, reason: "传输被中断"@ }
        } else {
            SendStepView::Abort { notify: told, reason: "上传失败："@ + text }
        },
    }
}

impl SendFlow {
    /// What the user is told at once, before the receiver has answered.
    pub fn started(&self) -> (r: CoreEvent)
        ensures
            r.deep_view() == (CoreEventView::TransferStarted {
                transfer_id: self.transfer_id@,
                peer_id: self.peer_id@,
                peer_name: self.peer_name@,
                outgoing: true,
                files: metas_of(self.files.deep_view()),
                sources: sources_of(self.files.deep_view()),
                save_dir: None,
            }),
    {
        CoreEvent::TransferStarted {
            transfer_id: self.transfer_id.clone(),
            peer_id: self.peer_id.clone(),
            peer_name: self.peer_name.clone(),
            outgoing: true,
            files: metas(&self.files),
            sources: sources(&self.files),
            save_dir: None,
        }
    }

    fn step(&self, cancelled: bool) -> (r: SendStep)
        ensures
            r.deep_view() == flow_step(self.deep_view(), cancelled),
    {
        if self.next >= self.files.len() {
            SendStep::Done
        } else if cancelled {
            SendStep::Abort {
                notify: Some(cancel_url(self.base.as_str(), self.token.as_str())),
                reason: "已取消".to_owned(),
            }
        } else {
            let f = &self.files[self.next];
            assert(self.files.deep_view()[self.next as int] == f.deep_view());
            SendStep::Upload {
                index: self.next,
                url: upload_url(self.base.as_str(), self.token.as_str(), f.0.id.as_str()),
                path: f.1.clone(),
            }
        }
    }

    pub fn on_prepare(&mut self, reply: PrepareReply, cancelled: bool) -> (r: SendStep)
        ensures
            final(self).deep_view() == flow_after_prepare(old(self).deep_view(), reply.deep_view()),
            r.deep_view() == step_after_prepare(
                old(self).deep_view(),
                reply.deep_view(),
                cancelled,
            ),
    {
        match reply {
            PrepareReply::Unreachable => SendStep::Abort {
                notify: None,
                reason: "连接对方失败".to_owned(),
            },
            PrepareReply::Reply { code, text, token } => {
                if code == 403 {
                    return SendStep::Abort {
                        notify: None,
                        reason: "对方拒绝了传输".to_owned(),
                    };
                }
                if !(200 <= code && code < 300) {
                    return SendStep::Abort {
                        notify: None,
                        reason: cat("对方返回 ", text.as_str()),
                    };
                }
                match token {
                    None => SendStep::Abort {
                        notify: None,
                        reason: "解析对方响应失败".to_owned(),
                    },
                    Some(t) => {
                        self.token = t;
                        self.next = 0;
                        self.step(cancelled)
                    },
                }
            },
        }
    }

    pub fn on_upload(&mut self, reply: UploadReply, cancelled: bool) -> (r: SendStep)
        requires
            old(self).next < old(self).files@.len(),
        ensures
            final(self).deep_view() == flow_after_upload(old(self).deep_view(), reply.deep_view()),
            r.deep_view() == step_after_upload(
                old(self).deep_view(),
                reply.deep_view(),
                cancelled,
            ),
    {
        match reply {
            UploadReply::NotOpened => {
                let f = &self.files[self.next];
                assert(self.files.deep_view()[self.next as int] == f.deep_view());
                SendStep::Abort { notify: None, reason: cat3("打开 ", f.1.as_str(), " 失败") }
            },
            UploadReply::Unreachable { cause } => {
                let notify = if cancelled {
                    None
                } else {
                    Some(cancel_url(self.base.as_str(), self.token.as_str()))
                };
                SendStep::Abort { notify, reason: cat("网络错误：", cause.as_str()) }
            },
            UploadReply::Reply { code, text } => {
                if 200 <= code && code < 300 {
                    let count: usize = self.files.len();
                    assert(self.next < count);
                    self.next = self.next + 1;
                    self.step(cancelled)
                } else if code == 409 {
                    SendStep::Abort {
                        notify: Some(cancel_url(self.base.as_str(), self.token.as_str())),
                        reason: "传输被中断".to_owned(),
                    }
                } else {
                    SendStep::Abort {
                        notify: Some(cancel_url(self.base.as_str(), self.token.as_str())),
                        reason: cat("上传失败：", text.as_str()),
                    }
                }
            },
        }
    }
}

/// How a transfer ended: a transfer that the user has cancelled ended by
/// that, whatever went wrong.
pub open spec fn send_outcome(reason: Option<Seq<char>>, cancelled: bool) -> Option<Seq<char>> {
    match reason {
        None => None,
        Some(m) => if cancelled {
            Some("已取消"@)
        } else {
            Some(m)
        },
    }
}

pub fn send_finished(transfer_id: &str, reason: Option<String>, cancelled: bool) -> (r: CoreEvent)
    ensures
        r.deep_view() == (CoreEventView::TransferFinished {
            transfer_id: transfer_id@,
            error: send_outcome(reason.deep_view(), cancelled),
        }),
{
    let error = match reason {
        None => None,
        Some(m) => if cancelled {
            Some("已取消".to_owned())
        } else {
            Some(m)
        },
    };
    CoreEvent::TransferFinished { transfer_id: transfer_id.to_owned(), error }
}

/// The flow after the receiver has taken the first `n` files.
pub open spec fn flow_after_uploads(f: SendFlowView, n: int) -> SendFlowView
    decreases n,
{
    if n <= 0 {
        f
    } else {
        flow_after_upload(
            flow_after_uploads(f, n - 1),
            UploadReplyView::Reply { code: 200, text: "200 OK"@ },
        )
    }
}

/// Where the receiver takes everything, each file is uploaded once and in
/// order, and then the transfer is done.
pub proof fn law_every_file_is_uploaded_in_order(f: SendFlowView, n: int)
    requires
        f.next == 0,
        0 <= n <= f.files.len() <= usize::MAX,
    ensures
        flow_after_uploads(f, n) == (SendFlowView { next: n as usize, ..f }),
        flow_step(flow_after_uploads(f, n), false) == (if n < f.files.len() {
            SendStepView::Upload {
                index: n as usize,
                url: upload_text(f.base, f.token, f.files[n].0.id),
                path: f.files[n].1,
            }
        } else {
            SendStepView::Done
        }),
    decreases n,
{
    if n > 0 {
        law_every_file_is_uploaded_in_order(f, n - 1);
    }
}

/// Once the receiver has agreed, a transfer that fails on its side or that is
/// cancelled between two files never leaves it waiting.
pub proof fn law_receiver_is_told(f: SendFlowView, code: u16, text: Seq<char>, cancelled: bool)
    ensures
        step_after_upload(
            f,
            UploadReplyView::Reply { code, text },
            cancelled,
        ) matches SendStepView::Abort { notify, reason: _ } ==> notify == Some(
            cancel_text(f.base, f.token),
        ),
{
}

/// Nothing is uploaded that the receiver has not agreed to: unless it answers
/// with a success and a token, the transfer ends there.
pub proof fn law_nothing_goes_without_agreement(
    f: SendFlowView,
    reply: PrepareReplyView,
    cancelled: bool,
)
    ensures
        ({
            let agreed = reply is Reply && 200 <= reply->code < 300 && reply->token is Some;
            &&& !agreed ==> step_after_prepare(f, reply, cancelled) is Abort
            &&& !agreed ==> step_after_prepare(f, reply, cancelled)->notify is None
            &&& !agreed ==> flow_after_prepare(f, reply) == f
            &&& reply is Reply && reply->code == 403 ==> step_after_prepare(
                f,
                reply,
                cancelled,
            )->reason == "对方拒绝了传输"@
        }),
{
}

/// Once the receiver has agreed, the first file goes up, to the receiver that
/// was asked and under the token that it gave; where the user has cancelled
/// meanwhile, the receiver is told instead.
pub proof fn law_agreement_starts_the_uploads(
    f: SendFlowView,
    code: u16,
    said: Seq<char>,
    token: Seq<char>,
)
    requires
        200 <= code < 300,
        f.files.len() > 0,
    ensures
        ({
            let reply = PrepareReplyView::Reply { code, text: said, token: Some(token) };
            &&& step_after_prepare(f, reply, false) == (SendStepView::Upload {
                index: 0,
                url: f.base + "/api/transfer/upload/"@ + token + "/"@ + f.files[0].0.id,
                path: f.files[0].1,
            })
            &&& step_after_prepare(f, reply, true) == (SendStepView::Abort {
                notify: Some(f.base + "/api/transfer/cancel/"@ + token),
                reason: "已取消"@,
            })
            &&& flow_after_prepare(f, reply).token == token
            &&& flow_after_prepare(f, reply).next == 0
            &&& flow_after_prepare(f, reply).files == f.files
            &&& flow_after_prepare(f, reply).base == f.base
            &&& flow_after_prepare(f, reply).transfer_id == f.transfer_id
            &&& flow_after_prepare(f, reply).peer_id == f.peer_id
        }),
{
}

/// A file that the receiver has taken is followed by the next one, from where
/// that one lies, and the last one by the end; whatever the success is called.
pub proof fn law_taken_file_is_followed_by_the_next(f: SendFlowView, code: u16, said: Seq<char>)
    requires
        200 <= code < 300,
        f.next < f.files.len() <= usize::MAX,
    ensures
        ({
            let reply = UploadReplyView::Reply { code, text: said };
            let n = f.next + 1;
            &&& n < f.files.len() ==> step_after_upload(f, reply, false) == (SendStepView::Upload {
                index: n as usize,
                url: f.base + "/api/transfer/upload/"@ + f.token + "/"@ + f.files[n].0.id,
                path: f.files[n].1,
            })
            &&& n < f.files.len() ==> step_after_upload(f, reply, true) == (SendStepView::Abort {
                notify: Some(f.base + "/api/transfer/cancel/"@ + f.token),
                reason: "已取消"@,
            })
            &&& n == f.files.len() ==> step_after_upload(f, reply, false) is Done
            &&& n == f.files.len() ==> step_after_upload(f, reply, true) is Done
            &&& flow_after_upload(f, reply).next == n
            &&& flow_after_upload(f, reply).files == f.files
            &&& flow_after_upload(f, reply).token == f.token
            &&& flow_after_upload(f, reply).base == f.base
        }),
{
}

/// A file that was not taken ends the transfer: no further file goes up.
pub proof fn law_failed_upload_ends_the_sending(
    f: SendFlowView,
    reply: UploadReplyView,
    cancelled: bool,
)
    requires
        !(reply is Reply && 200 <= reply->Reply_code < 300),
    ensures
        step_after_upload(f, reply, cancelled) is Abort,
        flow_after_upload(f, reply) == f,
        reply is Unreachable && !cancelled ==> step_after_upload(f, reply, cancelled)->notify
            == Some(f.base + "/api/transfer/cancel/"@ + f.token),
        reply is NotOpened ==> step_after_upload(f, reply, cancelled)->notify is None,
{
}

/// A transfer that ended without a reason is a success; one that the user has
/// cancelled ended by that.
pub proof fn law_end_of_sending(reason: Option<Seq<char>>, cancelled: bool)
    ensures
        send_outcome(reason, cancelled) is None <==> reason is None,
        reason is Some && !cancelled ==> send_outcome(reason, cancelled) == reason,
        reason is Some && cancelled ==> send_outcome(reason, cancelled) == Some("已取消"@),
{
}

/// The user is told of a text exactly where it did not get through.
pub proof fn law_failed_text_is_told(base: Seq<char>, reply: HttpReplyView)
    ensures
        text_report(base, reply) is None <==> reply is Status && 200 <= reply->code < 300,
        text_report(base, reply) is Some ==> text_report(base, reply)->Some_0 is Error,
{
}

/// A device that was asked is talked to exactly where it answers with a
/// success, says who it is, and speaks the same version; by just what it says.
pub proof fn law_only_fitting_devices_are_added(
    reply: HttpReplyView,
    info: Option<DeviceInfoView>,
    cause: Seq<char>,
)
    ensures
        probe_outcome(reply, info, cause) is Ok <==> reply is Status && 200 <= reply->code < 300
            && info is Some && info->Some_0.v == 1,
        probe_outcome(reply, info, cause) is Ok ==> Some(probe_outcome(reply, info, cause)->Ok_0)
            == info,
{
}

/// What the user and the receiver are told of the files is what was collected,
/// each by its own source.
pub proof fn law_files_keep_their_sources(files: Seq<(FileMetaView, Seq<char>)>, i: int)
    requires
        0 <= i < files.len(),
    ensures
        metas_of(files).len() == files.len(),
        sources_of(files).len() == files.len(),
        without_ids(files).len() == files.len(),
        metas_of(files)[i] == files[i].0,
        sources_of(files)[i] == files[i].1,
        without_ids(files)[i].source == sources_of(files)[i],
        without_ids(files)[i].name == metas_of(files)[i].name,
        without_ids(files)[i].rel_path == metas_of(files)[i].rel_path,
        without_ids(files)[i].size == metas_of(files)[i].size,
{
}

/// Files that were sent as one folder go by the name of the folder.
pub proof fn law_folder_gives_its_name(folder: Seq<char>, rests: Seq<Seq<char>>)
    requires
        rests.len() > 0,
        !text::has_char(folder, '/'),
    ensures
        batch_name(Seq::new(rests.len(), |i: int| folder.push('/') + rests[i])) == folder,
{
    let rels = Seq::new(rests.len(), |i: int| folder.push('/') + rests[i]);
    assert forall|i: int| 0 <= i < rels.len() implies folder_of(#[trigger] rels[i]) == Some(
        folder,
    ) by {
        paths::lemma_pieces_of_plain(folder, '/', '/');
        paths::lemma_pieces_concat(folder, '/', rests[i], '/', '/');
        text::lemma_pieces_nonempty(rests[i], '/', '/');
        assert(text::pieces(rels[i], '/', '/')[0] == folder);
    }
    assert(folder_of(rels[0]) == Some(folder));
}

/// Files of which one lies in no folder go by their number.
pub proof fn law_loose_files_are_counted(rels: Seq<Seq<char>>, i: int)
    requires
        0 <= i < rels.len(),
        !text::has_char(rels[i], '/'),
    ensures
        batch_name(rels) == text::decimal(rels.len()) + " 个文件"@,
{
    paths::lemma_pieces_of_plain(rels[i], '/', '/');
    assert(folder_of(rels[i]) is None);
}

/// A file that was transferred alone is shown itself; one that came in a
/// folder is shown by the folder that was transferred, however deep it lies.
pub proof fn law_folder_is_shown_for_its_files(segs: Seq<Seq<char>>, p: Seq<char>, sys: System)
    requires
        segs.len() > 0,
        forall|i: int| 0 <= i < segs.len() ==> !text::has_char(#[trigger] segs[i], '/'),
    ensures
        segs.len() == 1 ==> target_text(text::joined(segs, '/'), p, sys) == Some(p),
        segs.len() >= 2 ==> target_text(text::joined(segs, '/'), p, sys) == paths::ancestor_text(
            p,
            segs.len() - 1,
            sys,
        ),
{
    paths::lemma_pieces_of_joined(segs, '/', '/');
}

/// The common directory of paths lies above every one of them; fewer than two
/// paths have none.
pub proof fn law_common_dir_holds_all(ps: Seq<Seq<char>>, sys: System)
    requires
        forall|i: int| 0 <= i < ps.len() ==> native(#[trigger] ps[i], sys) == sys,
    ensures
        ps.len() < 2 ==> common_dir(ps, sys) is None,
        common_dir(ps, sys) matches Some(d) ==> forall|i: int|
            0 <= i < ps.len() ==> paths::lies_in(#[trigger] ps[i], d, sys) && paths::components(
                ps[i],
                sys,
            ).len() > paths::components(d, sys).len(),
{
    let cs = all_comps(ps, sys);
    let c = common_comps(cs);
    if ps.len() >= 2 && c.len() > 0 {
        law_common_dir_is_deepest(cs);
        assert forall|i: int| 0 <= i < ps.len() implies #[trigger] cs[i] == paths::components(
            ps[i],
            sys,
        ) by {
            assert(native(ps[i], sys) == sys);
        }
        let first = paths::components(ps[0], sys);
        assert(cs[0] == first);
        assert(c.is_prefix_of(cs[0]));
        assert(c =~= first.take(c.len() as int));
        if c.len() == 1 && c[0] is Share {
            let d = seq![c[0], paths::Comp::Root];
            assert forall|i: int| 0 <= i < cs.len() implies d.is_prefix_of(#[trigger] cs[i]) by {
                assert(c.is_prefix_of(cs[i]));
                paths::law_components_well_formed(ps[i], sys);
                assert(cs[i][0] == c[0]) by {
                    assert(c[0] == cs[i].subrange(0, 1)[0]);
                }
                assert(d =~= cs[i].subrange(0, 2));
            }
            assert(d.is_prefix_of(c));
        }
        let n: int = if cs.contains(c) {
            c.len() - 1
        } else {
            c.len() as int
        };
        if common_dir(ps, sys) is Some {
            let d = common_dir(ps, sys)->Some_0;
            let t = first.take(n);
            assert(c.take(n) =~= t);
            if n == 1 {
                if cs.contains(c) {
                    let k = choose|k: int| 0 <= k < cs.len() && cs[k] == c;
                    paths::law_components_well_formed(ps[k], sys);
                    assert(paths::anchor_len(c) <= 1);
                }
            }
            assert(native(ps[0], sys) == sys);
            paths::law_front_reads_back(ps[0], n, sys);
            assert(d == paths::rendered(t, sys)) by {
                assert(c.take(c.len() as int) =~= c);
            }
            assert forall|i: int| 0 <= i < ps.len() implies paths::lies_in(
                #[trigger] ps[i],
                d,
                sys,
            ) && paths::components(ps[i], sys).len() > paths::components(d, sys).len() by {
                let x = paths::components(ps[i], sys);
                assert(cs[i] == x);
                assert(c.is_prefix_of(cs[i]));
                assert(t =~= x.subrange(0, n)) by {
                    assert forall|j: int| 0 <= j < n implies t[j] == x[j] by {
                        assert(c[j] == x.subrange(0, c.len() as int)[j]);
                    }
                }
                if n == c.len() && x.len() == c.len() {
                    assert(c =~= x);
                    assert(cs.contains(c));
                }
            }
        }
    }
}

/// The same path is read the same way everywhere, where it begins with a drive
/// and a backslash; every other path is read for the system here.
pub proof fn law_paths_of_windows_are_read_as_such(p: Seq<char>, sys: System)
    ensures
        p.len() > 2 && text::is_ascii_letter(p[0]) && p[1] == ':' && p[2] == '\\' ==> native(p, sys)
            == System::Windows,
        !(p.len() > 2 && text::is_ascii_letter(p[0]) && p[1] == ':' && p[2] == '\\') ==> native(
            p,
            sys,
        ) == sys,
{
}

/// What the user is told of a text that did not get through names where it was
/// to go and why it did not.
pub proof fn law_failed_text_is_told_in_full(
    base: Seq<char>,
    cause: Seq<char>,
    code: u16,
    status: Seq<char>,
)
    requires
        !(200 <= code < 300),
    ensures
        text_report(base, HttpReplyView::Unreachable { cause }) == Some(
            CoreEventView::Error {
                context: "发送消息"@,
                message: "发送到 "@ + base + " 失败："@ + ("连接对方失败: "@ + cause),
            },
        ),
        text_report(base, HttpReplyView::Status { code, text: status }) == Some(
            CoreEventView::Error {
                context: "发送消息"@,
                message: "发送到 "@ + base + " 失败："@ + ("对方返回 "@ + status),
            },
        ),
{
}

/// Why a sending ended is told as it was: not reached, refused, not read, not
/// opened, broken off, or not taken.
pub proof fn law_end_of_sending_has_its_reason(
    f: SendFlowView,
    code: u16,
    said: Seq<char>,
    cause: Seq<char>,
    cancelled: bool,
)
    requires
        f.next < f.files.len(),
    ensures
        step_after_prepare(f, PrepareReplyView::Unreachable, cancelled)->reason
            == "连接对方失败"@,
        !(200 <= code < 300) && code != 403 ==> step_after_prepare(
            f,
            PrepareReplyView::Reply { code, text: said, token: None },
            cancelled,
        )->reason == "对方返回 "@ + said,
        200 <= code < 300 ==> step_after_prepare(
            f,
            PrepareReplyView::Reply { code, text: said, token: None },
            cancelled,
        )->reason == "解析对方响应失败"@,
        step_after_upload(f, UploadReplyView::NotOpened, cancelled)->reason == "打开 "@
            + f.files[f.next as int].1 + " 失败"@,
        step_after_upload(f, UploadReplyView::Unreachable { cause }, cancelled)->reason
            == "网络错误："@ + cause,
        step_after_upload(f, UploadReplyView::Reply { code: 409, text: said }, cancelled)->reason
            == "传输被中断"@,
        !(200 <= code < 300) && code != 409 ==> step_after_upload(
            f,
            UploadReplyView::Reply { code, text: said },
            cancelled,
        )->reason == "上传失败："@ + said,
{
}

// ---------------------------------------------------------------------------
// Progress
// ---------------------------------------------------------------------------

/// Counts the bytes of one upload.
#[derive(Debug)]
pub struct UploadCounter {
    pub transfer_id: String,
    pub file_id: String,
    pub transferred: u64,
    pub total: u64,
    pub throttle: ProgressThrottle,
}

impl UploadCounter {
    pub fn new(transfer_id: String, meta: &FileMeta) -> (r: Self)
        ensures
            r.transfer_id@ == transfer_id@,
            r.file_id@ == meta.id@,
            r.transferred == 0,
            r.total == meta.size,
            r.throttle.last_ms == 0,
            r.throttle.interval_ms == 150,
    {
        UploadCounter {
            transfer_id,
            file_id: meta.id.clone(),
            transferred: 0,
            total: meta.size,
            throttle: ProgressThrottle::new(150),
        }
    }

    /// Counts a chunk that goes out at `now`. Progress is reported when it is
    /// due, and when everything is out.
    pub fn on_chunk(&mut self, len: u64, now: i64) -> (r: Option<CoreEvent>)
        requires
            old(self).transferred + len <= u64::MAX,
        ensures
            final(self).transferred == old(self).transferred + len,
            final(self).transfer_id@ == old(self).transfer_id@,
            final(self).file_id@ == old(self).file_id@,
            final(self).total == old(self).total,
            final(self).throttle.interval_ms == old(self).throttle.interval_ms,
            final(self).throttle.last_ms == (if proto::is_due(
                old(self).throttle.last_ms,
                old(self).throttle.interval_ms,
                now,
            ) {
                now
            } else {
                old(self).throttle.last_ms
            }),
            r.deep_view() == (if proto::is_due(
                old(self).throttle.last_ms,
                old(self).throttle.interval_ms,
                now,
            ) || final(self).transferred >= old(self).total {
                Some(
                    CoreEventView::FileProgress {
                        transfer_id: old(self).transfer_id@,
                        file_id: old(self).file_id@,
                        transferred: final(self).transferred,
                        total: old(self).total,
                        done: final(self).transferred >= old(self).total,
                        path: None,
                    },
                )
            } else {
                None
            }),
    {
        self.transferred = self.transferred + len;
        let due = self.throttle.allow_at(now);
        if due || self.transferred >= self.total {
            Some(
                CoreEvent::FileProgress {
                    transfer_id: self.transfer_id.clone(),
                    file_id: self.file_id.clone(),
                    transferred: self.transferred,
                    total: self.total,
                    done: self.transferred >= self.total,
                    path: None,
                },
            )
        } else {
            None
        }
    }
}

} // verus!
