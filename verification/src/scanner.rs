//! Work-list traversal state machine for the directory scan.
//!
//! The caller owns the filesystem: it repeatedly asks for the next
//! directory to read (`Scanner::next_dir`), reads that directory's
//! listing itself, and hands the entries back (`Scanner::add_entries`).
//! A directory whose listing cannot be read is simply never supplied, or
//! supplied empty — best-effort enumeration absorbs every failure as
//! "no children". The work list holds individual listing entries, a
//! listing's entries stacked in reverse order: draining it processes
//! them in listing order, and a subdirectory's whole subtree is emitted
//! inline, at the subdirectory's own position in its parent's listing
//! (depth-first, not batched).

use vstd::prelude::*;
use crate::meta::FileMeta;
use crate::meta::MetaModel;
use crate::meta::make_file_meta;
use crate::meta::meta_model;

verus! {

/// One entry of a directory listing, as the caller observed it.
pub enum EntryInfo {
    /// A subdirectory, identified by its full path.
    Dir { path: String },
    /// A regular file together with the raw metadata that could be read
    /// for it. A `None` timestamp means the platform could not supply
    /// one; `ext_valid` is false when the platform name's extension
    /// exists but could not be read as Unicode text (the file type is
    /// then the `"unknown"` marker, whatever the lossily rendered name
    /// shows). A caller that starts from ordinary strings passes `true`.
    File {
        name: String,
        path: String,
        size: u64,
        ext_valid: bool,
        created: Option<String>,
        modified: Option<String>,
    },
}

/// The mathematical model of an `EntryInfo`.
pub enum EntryModel {
    Dir { path: Seq<char> },
    File {
        name: Seq<char>,
        path: Seq<char>,
        size: u64,
        ext_valid: bool,
        created: Option<Seq<char>>,
        modified: Option<Seq<char>>,
    },
}

impl View for EntryInfo {
    type V = EntryModel;

    open spec fn view(&self) -> EntryModel {
        match self {
            EntryInfo::Dir { path } => EntryModel::Dir { path: path@ },
            EntryInfo::File { name, path, size, ext_valid, created, modified } => EntryModel::File {
                name: name@,
                path: path@,
                size: *size,
                ext_valid: *ext_valid,
                created: created.deep_view(),
                modified: modified.deep_view(),
            },
        }
    }
}

impl DeepView for EntryInfo {
    type V = EntryModel;

    open spec fn deep_view(&self) -> EntryModel {
        self.view()
    }
}

/// The metadata records contributed by one listing entry: one record for
/// a regular file, none for a subdirectory.
pub open spec fn metas_of(e: EntryModel) -> Seq<MetaModel> {
    match e {
        EntryModel::Dir { .. } => Seq::empty(),
        EntryModel::File { name, path, size, ext_valid, created, modified } => seq![
            meta_model(name, path, size, ext_valid, created, modified),
        ],
    }
}

/// The metadata records owed for a whole listing, in listing order.
pub open spec fn entry_metas(es: Seq<EntryModel>) -> Seq<MetaModel>
    decreases es.len(),
{
    if es.len() == 0 {
        Seq::empty()
    } else {
        entry_metas(es.drop_last()) + metas_of(es.last())
    }
}

/// The path of a directory work item.
pub open spec fn dir_path(e: EntryModel) -> Seq<char>
    recommends
        e is Dir,
{
    match e {
        EntryModel::Dir { path } => path,
        EntryModel::File { .. } => Seq::empty(),
    }
}

/// Length of the run of regular-file items at the top of the work list
/// (the top is the sequence's end).
pub open spec fn top_files(st: Seq<EntryModel>) -> nat
    decreases st.len(),
{
    if st.len() == 0 {
        0
    } else if st.last() is File {
        1 + top_files(st.drop_last())
    } else {
        0
    }
}

/// The records of the top `n` work items, topmost first.
pub open spec fn drained_metas(st: Seq<EntryModel>, n: nat) -> Seq<MetaModel>
    decreases n,
{
    if n == 0 || st.len() == 0 {
        Seq::empty()
    } else {
        metas_of(st.last()) + drained_metas(st.drop_last(), (n - 1) as nat)
    }
}

/// `top_files` really is the maximal run of files at the top: the top
/// `top_files(st)` items are files, and the item below them, if any, is
/// a directory.
pub proof fn lemma_top_files(st: Seq<EntryModel>)
    ensures
        top_files(st) <= st.len(),
        forall|k: int| st.len() - top_files(st) <= k < st.len() ==> (#[trigger] st[k]) is File,
        top_files(st) < st.len() ==> st[st.len() - 1 - top_files(st)] is Dir,
    decreases st.len(),
{
    if st.len() > 0 && st.last() is File {
        let dl = st.drop_last();
        lemma_top_files(dl);
        assert forall|k: int|
            st.len() - top_files(st) <= k < st.len() implies (#[trigger] st[k]) is File by {
            if k < st.len() - 1 {
                assert(dl[k] is File);
                assert(dl[k] == st[k]);
            }
        }
        if top_files(st) < st.len() {
            assert(dl[dl.len() - 1 - top_files(dl)] is Dir);
            assert(dl[st.len() - 1 - top_files(st)] == st[st.len() - 1 - top_files(st)]);
        }
    }
}

/// Draining one more item from the top appends exactly that item's
/// records.
pub proof fn lemma_drained_step(st: Seq<EntryModel>, c: nat)
    requires
        c < st.len(),
    ensures
        drained_metas(st, c + 1) == drained_metas(st, c) + metas_of(st[st.len() - 1 - c]),
    decreases c,
{
    if c == 0 {
        assert(drained_metas(st, 0) =~= Seq::<MetaModel>::empty());
        assert(drained_metas(st.drop_last(), 0) =~= Seq::<MetaModel>::empty());
        assert(metas_of(st.last()) + Seq::<MetaModel>::empty() =~= metas_of(st.last()));
        assert(Seq::<MetaModel>::empty() + metas_of(st.last()) =~= metas_of(st.last()));
    } else {
        let dl = st.drop_last();
        lemma_drained_step(dl, (c - 1) as nat);
        assert(dl[dl.len() - 1 - (c - 1)] == st[st.len() - 1 - c]);
        assert((metas_of(st.last()) + drained_metas(dl, (c - 1) as nat)) + metas_of(
            st[st.len() - 1 - c],
        ) =~= metas_of(st.last()) + (drained_metas(dl, (c - 1) as nat) + metas_of(
            st[st.len() - 1 - c],
        )));
        assert(drained_metas(st, c + 1) =~= drained_metas(st, c) + metas_of(st[st.len() - 1 - c]));
    }
}

/// The work-list state of one scan: the listing entries still to process
/// (a stack whose top is the end) and the files collected so far.
pub struct Scanner {
    work: Vec<EntryInfo>,
    files: Vec<FileMeta>,
}

impl Scanner {
    /// The work items still to process, top of the stack last.
    pub closed spec fn work_items(&self) -> Seq<EntryModel> {
        self.work.deep_view()
    }

    /// The metadata records collected so far, in emission order.
    pub closed spec fn collected(&self) -> Seq<MetaModel> {
        self.files.deep_view()
    }

    /// Start a scan: the root is the only work item and nothing has been
    /// collected.
    pub fn new(root: String) -> (s: Scanner)
        ensures
            s.work_items() == seq![EntryModel::Dir { path: root@ }],
            s.collected() == Seq::<MetaModel>::empty(),
    {
        let ghost rootv: Seq<char> = root@;
        let mut work: Vec<EntryInfo> = Vec::new();
        work.push(EntryInfo::Dir { path: root });
        let s = Scanner { work, files: Vec::new() };
        proof {
            assert(s.work_items() =~= seq![EntryModel::Dir { path: rootv }]);
            assert(s.collected() =~= Seq::<MetaModel>::empty());
        }
        s
    }

    /// Record one directory's listing: the entries are stacked in
    /// reverse listing order on top of the work list, so that draining
    /// the stack processes them in listing order. Nothing is emitted
    /// yet; `next_dir` turns the stacked files into records.
    pub fn add_entries(&mut self, entries: Vec<EntryInfo>)
        ensures
            final(self).collected() == old(self).collected(),
            final(self).work_items() == old(self).work_items() + entries.deep_view().reverse(),
    {
        let ghost all: Seq<EntryModel> = entries.deep_view();
        let mut rest = entries;
        proof {
            assert(all.reverse().subrange(0, 0) =~= Seq::<EntryModel>::empty());
            assert(self.work.deep_view() + Seq::<EntryModel>::empty() =~= self.work.deep_view());
            assert(rest.deep_view() =~= all.subrange(0, rest@.len() as int));
        }
        while rest.len() > 0
            invariant
                rest@.len() <= all.len(),
                rest.deep_view() == all.subrange(0, rest@.len() as int),
                self.files == old(self).files,
                self.work.deep_view() == old(self).work.deep_view() + all.reverse().subrange(
                    0,
                    all.len() - rest@.len(),
                ),
            decreases rest@.len(),
        {
            let ghost t: int = all.len() - rest@.len();
            let ghost rest_prev: Seq<EntryModel> = rest.deep_view();
            let ghost rest_prev_v: Seq<EntryInfo> = rest@;
            let ghost work_now: Seq<EntryModel> = self.work.deep_view();
            let ghost work_now_v: Seq<EntryInfo> = self.work@;
            let e = rest.pop().unwrap();
            let ghost ev: EntryModel = e.deep_view();
            proof {
                assert(rest_prev[rest_prev_v.len() - 1] == rest_prev_v[rest_prev_v.len()
                    - 1].deep_view());
                assert(rest_prev[rest_prev_v.len() - 1] == all.subrange(
                    0,
                    rest_prev_v.len() as int,
                )[rest_prev_v.len() - 1]);
                assert(ev == all[all.len() - 1 - t]);
                assert forall|i: int|
                    0 <= i < rest@.len() implies #[trigger] rest.deep_view()[i] == all[i] by {
                    assert(rest@[i] == rest_prev_v[i]);
                    assert(rest.deep_view()[i] == rest@[i].deep_view());
                    assert(rest_prev[i] == rest_prev_v[i].deep_view());
                    assert(rest_prev[i] == all.subrange(0, rest_prev_v.len() as int)[i]);
                }
                assert(rest.deep_view() =~= all.subrange(0, rest@.len() as int));
            }
            self.work.push(e);
            proof {
                assert(all.reverse()[t] == all[all.len() - 1 - t]);
                assert forall|i: int|
                    0 <= i < self.work@.len() implies #[trigger] self.work.deep_view()[i]
                    == work_now.push(ev)[i] by {
                    assert(self.work.deep_view()[i] == self.work@[i].deep_view());
                    if i < self.work@.len() - 1 {
                        assert(self.work@[i] == work_now_v[i]);
                        assert(work_now[i] == work_now_v[i].deep_view());
                    } else {
                        assert(self.work@[i].deep_view() == ev);
                    }
                }
                assert(self.work.deep_view() =~= work_now.push(ev));
                assert(all.reverse().subrange(0, t + 1) =~= all.reverse().subrange(0, t).push(
                    all.reverse()[t],
                ));
                assert(work_now.push(ev) =~= old(self).work.deep_view() + all.reverse().subrange(
                    0,
                    t + 1,
                ));
                assert(self.work.deep_view() == old(self).work.deep_view()
                    + all.reverse().subrange(0, t + 1));
            }
        }
        proof {
            assert(all.reverse().subrange(0, all.len() as int) =~= all.reverse());
            assert(self.work.deep_view() == old(self).work.deep_view() + all.reverse());
            assert(self.collected() == old(self).collected());
        }
    }

    /// Advance the scan: regular files on top of the work list are
    /// turned into records, topmost (earliest-listed) first, until a
    /// directory surfaces — returned for the caller to read — or the
    /// work list runs out (`None`: the scan is complete). Each
    /// subdirectory's subtree is thereby emitted inline, at the
    /// subdirectory's own position in its parent's listing.
    pub fn next_dir(&mut self) -> (r: Option<String>)
        ensures
            final(self).collected() == old(self).collected() + drained_metas(
                old(self).work_items(),
                top_files(old(self).work_items()),
            ),
            ({
                let st = old(self).work_items();
                let n = top_files(st);
                if st.len() == n {
                    r is None && final(self).work_items() == Seq::<EntryModel>::empty()
                } else {
                    &&& r is Some
                    &&& st[st.len() - n - 1] is Dir
                    &&& r->0@ == dir_path(st[st.len() - n - 1])
                    &&& final(self).work_items() == st.subrange(0, st.len() - n - 1)
                }
            }),
    {
        let ghost st: Seq<EntryModel> = self.work.deep_view();
        let ghost n: nat = top_files(st);
        let mut result: Option<String> = None;
        let mut stop = false;
        proof {
            lemma_top_files(st);
            assert(drained_metas(st, 0) =~= Seq::<MetaModel>::empty());
            assert(self.files.deep_view() + Seq::<MetaModel>::empty() =~= self.files.deep_view());
            assert(self.work.deep_view() =~= st.subrange(0, self.work@.len() as int));
        }
        while !stop
            invariant
                n == top_files(st),
                n <= st.len(),
                !stop ==> {
                    &&& result is None
                    &&& self.work@.len() <= st.len()
                    &&& st.len() - self.work@.len() <= n
                    &&& self.work.deep_view() == st.subrange(0, self.work@.len() as int)
                    &&& self.files.deep_view() == old(self).files.deep_view() + drained_metas(
                        st,
                        (st.len() - self.work@.len()) as nat,
                    )
                },
                stop ==> self.files.deep_view() == old(self).files.deep_view() + drained_metas(
                    st,
                    n,
                ),
                stop ==> (if st.len() == n {
                    result is None && self.work@.len() == 0
                } else {
                    &&& result is Some
                    &&& st[st.len() - n - 1] is Dir
                    &&& result->0@ == dir_path(st[st.len() - n - 1])
                    &&& self.work.deep_view() == st.subrange(0, st.len() - n - 1)
                }),
            decreases self.work@.len() + (if stop { 0int } else { 1 }),
        {
            let ghost c: int = st.len() - self.work@.len();
            let ghost work_prev: Seq<EntryModel> = self.work.deep_view();
            let ghost work_prev_v: Seq<EntryInfo> = self.work@;
            let ghost files_now: Seq<MetaModel> = self.files.deep_view();
            let ghost files_now_v: Seq<FileMeta> = self.files@;
            let item = self.work.pop();
            proof {
                lemma_top_files(st);
                if work_prev_v.len() > 0 {
                    assert(work_prev[work_prev_v.len() - 1] == work_prev_v[work_prev_v.len()
                        - 1].deep_view());
                    assert(work_prev[work_prev_v.len() - 1] == st.subrange(
                        0,
                        work_prev_v.len() as int,
                    )[work_prev_v.len() - 1]);
                    assert(work_prev_v[work_prev_v.len() - 1].deep_view() == st[st.len() - 1 - c]);
                    assert forall|i: int|
                        0 <= i < self.work@.len() implies #[trigger] self.work.deep_view()[i]
                        == st[i] by {
                        assert(self.work@[i] == work_prev_v[i]);
                        assert(self.work.deep_view()[i] == self.work@[i].deep_view());
                        assert(work_prev[i] == work_prev_v[i].deep_view());
                        assert(work_prev[i] == st.subrange(0, work_prev_v.len() as int)[i]);
                    }
                    assert(self.work.deep_view() =~= st.subrange(0, self.work@.len() as int));
                }
            }
            match item {
                None => {
                    proof {
                        assert(work_prev_v.len() == 0);
                        assert(c == st.len());
                        assert(n == st.len());
                        assert(self.work.deep_view() =~= st.subrange(0, 0));
                    }
                    stop = true;
                },
                Some(EntryInfo::Dir { path }) => {
                    let ghost pathv: Seq<char> = path@;
                    proof {
                        assert(st[st.len() - 1 - c] == (EntryModel::Dir { path: pathv }));
                        if c < n {
                            assert(st[st.len() - 1 - c] is File);
                        }
                        assert(c == n);
                        assert(st.len() > n);
                        assert(dir_path(st[st.len() - n - 1]) == pathv);
                        assert(self.work.deep_view() == st.subrange(0, st.len() - n - 1));
                    }
                    result = Some(path);
                    stop = true;
                },
                Some(EntryInfo::File { name, path, size, ext_valid, created, modified }) => {
                    let ghost namev: Seq<char> = name@;
                    let ghost pathv: Seq<char> = path@;
                    let ghost createdv: Option<Seq<char>> = created.deep_view();
                    let ghost modifiedv: Option<Seq<char>> = modified.deep_view();
                    proof {
                        assert(st[st.len() - 1 - c] == (EntryModel::File {
                            name: namev,
                            path: pathv,
                            size: size,
                            ext_valid: ext_valid,
                            created: createdv,
                            modified: modifiedv,
                        }));
                        if c == n {
                            assert(st.len() > c);
                            assert(st[st.len() - 1 - n] is Dir);
                        }
                        assert(c < n);
                    }
                    let m = make_file_meta(name, path, size, ext_valid, created, modified);
                    proof {
                        assert(m@ == meta_model(
                            namev,
                            pathv,
                            size,
                            ext_valid,
                            createdv,
                            modifiedv,
                        ));
                        assert(metas_of(st[st.len() - 1 - c]) =~= seq![m@]);
                    }
                    let ghost mv: MetaModel = m@;
                    self.files.push(m);
                    proof {
                        assert forall|i: int|
                            0 <= i < self.files@.len() implies #[trigger] self.files.deep_view()[i]
                            == files_now.push(mv)[i] by {
                            assert(self.files.deep_view()[i] == self.files@[i].deep_view());
                            if i < self.files@.len() - 1 {
                                assert(self.files@[i] == files_now_v[i]);
                                assert(files_now[i] == files_now_v[i].deep_view());
                            } else {
                                assert(self.files@[i].deep_view() == mv);
                            }
                        }
                        assert(self.files.deep_view() =~= files_now.push(mv));
                        lemma_drained_step(st, c as nat);
                        assert(files_now.push(mv) =~= old(self).files.deep_view() + drained_metas(
                            st,
                            (c + 1) as nat,
                        ));
                        assert(self.files.deep_view() == old(self).files.deep_view()
                            + drained_metas(st, (c + 1) as nat));
                    }
                },
            }
        }
        result
    }

    /// True exactly when nothing is left to process: the scan is
    /// complete once `next_dir` has returned `None`.
    pub fn done(&self) -> (r: bool)
        ensures
            r == (self.work_items().len() == 0),
    {
        self.work.len() == 0
    }

    /// Surrender the collected records.
    pub fn into_files(self) -> (r: Vec<FileMeta>)
        ensures
            r.deep_view() == self.collected(),
    {
        self.files
    }
}

} // verus!
