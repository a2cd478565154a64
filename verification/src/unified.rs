//! The unified trash: every registered location behind one interface.
//!
//! Construction places the home trash before the discovered mount
//! trashes and then lets administrator-created trashes take priority as
//! write targets.  Listing, putting, emptying, restoring and removing
//! are decision cores: they take plain observations — directory
//! snapshots, device ids, the current time — and return exact results
//! and small action plans for the caller to execute.

use crate::codec::{parse_trashinfo, parse_trashinfo_spec, Trashinfo, TrashinfoView};
use crate::fsmodel::FsAction;
use crate::naming;
use crate::paths;
use crate::timestamp::Timestamp;
use crate::trash::{Trash, TrashView};
use crate::TrashError;
use vstd::prelude::*;

verus! {

/// All trashcans across all physical devices, as one collection.
#[derive(Debug)]
pub struct UnifiedTrash {
    /// The user's XDG data-home trash.
    pub home_trash: Trash,
    /// Every registered location, the home trash included, with
    /// administrator trashes sorted first.
    pub trashes: Vec<Trash>,
}

/// The mathematical content of a `UnifiedTrash`.
pub ghost struct UnifiedTrashView {
    pub home_trash: TrashView,
    pub trashes: Seq<TrashView>,
}

impl View for UnifiedTrash {
    type V = UnifiedTrashView;

    open spec fn view(&self) -> UnifiedTrashView {
        UnifiedTrashView { home_trash: self.home_trash@, trashes: self.trashes.deep_view() }
    }
}

/// Administrator trashes first, everything else after, both sides in
/// their given order: the stable admin-priority ordering.
pub open spec fn admin_first_spec(all: Seq<TrashView>) -> Seq<TrashView> {
    all.filter(|t: TrashView| t.is_admin_trash) + all.filter(|t: TrashView| !t.is_admin_trash)
}

impl UnifiedTrash {
    /// Composes the unified trash: the home trash is placed first among
    /// the discovered trashes, and administrator trashes are then
    /// stably sorted to the front, where the write-target search finds
    /// them before per-user trashes.
    pub fn new(home_trash: Trash, mount_trashes: Vec<Trash>) -> (r: UnifiedTrash)
        ensures
            r@.home_trash == home_trash@,
            r@.trashes == admin_first_spec(seq![home_trash@] + mount_trashes.deep_view()),
    {
        let ghost all = seq![home_trash@] + mount_trashes.deep_view();
        let mut ordered: Vec<Trash> = Vec::new();
        proof {
            reveal(Seq::filter);
            assert(Seq::<TrashView>::empty().filter(|t: TrashView| t.is_admin_trash)
                =~= Seq::<TrashView>::empty());
            assert(all.take(0) =~= Seq::<TrashView>::empty());
            assert(ordered.deep_view() =~~= all.take(0).filter(|t: TrashView| t.is_admin_trash));
        }
        if home_trash.is_admin_trash {
            let ghost pre = ordered.deep_view();
            ordered.push(home_trash.duplicate());
            proof {
                assert(ordered.deep_view() =~~= pre.push(home_trash@));
            }
        }
        proof {
            reveal(Seq::filter);
            assert(all.take(1).drop_last() =~= all.take(0));
            assert(all.take(1).last() == home_trash@);
            assert(ordered.deep_view() =~~= all.take(1).filter(|t: TrashView| t.is_admin_trash));
        }
        let n = mount_trashes.len();
        for i in 0..n
            invariant
                n == mount_trashes.deep_view().len(),
                all == seq![home_trash@] + mount_trashes.deep_view(),
                all.len() == n + 1,
                ordered.deep_view() == all.take(i + 1).filter(|t: TrashView| t.is_admin_trash),
        {
            let ghost pre = ordered.deep_view();
            proof {
                assert(all.take(i + 2).drop_last() =~= all.take(i + 1));
                assert(all.take(i + 2).last() == all[i + 1]);
                assert(all[i + 1] == mount_trashes.deep_view()[i as int]);
                assert(mount_trashes[i as int]@ == mount_trashes.deep_view()[i as int]);
            }
            if mount_trashes[i].is_admin_trash {
                ordered.push(mount_trashes[i].duplicate());
                proof {
                    assert(ordered.deep_view() =~~= pre.push(mount_trashes.deep_view()[i as int]));
                }
            }
            proof {
                reveal(Seq::filter);
                assert(ordered.deep_view() =~~= all.take(i + 2).filter(
                    |t: TrashView| t.is_admin_trash,
                ));
            }
        }
        proof {
            assert(all.take(n + 1) =~= all);
        }
        let ghost admins = ordered.deep_view();
        // now the non-admin trashes, in the same order
        proof {
            reveal(Seq::filter);
            assert(Seq::<TrashView>::empty().filter(|t: TrashView| !t.is_admin_trash)
                =~= Seq::<TrashView>::empty());
            assert(all.take(0) =~= Seq::<TrashView>::empty());
            assert(ordered.deep_view() =~~= admins + all.take(0).filter(
                |t: TrashView| !t.is_admin_trash,
            ));
        }
        if !home_trash.is_admin_trash {
            let ghost pre = ordered.deep_view();
            ordered.push(home_trash.duplicate());
            proof {
                assert(ordered.deep_view() =~~= pre.push(home_trash@));
            }
        }
        proof {
            reveal(Seq::filter);
            assert(all.take(1).drop_last() =~= all.take(0));
            assert(all.take(1).last() == home_trash@);
            assert(ordered.deep_view() =~~= admins + all.take(1).filter(
                |t: TrashView| !t.is_admin_trash,
            ));
        }
        for i in 0..n
            invariant
                n == mount_trashes.deep_view().len(),
                all == seq![home_trash@] + mount_trashes.deep_view(),
                all.len() == n + 1,
                ordered.deep_view() == admins + all.take(i + 1).filter(
                    |t: TrashView| !t.is_admin_trash,
                ),
        {
            let ghost pre = ordered.deep_view();
            proof {
                assert(all.take(i + 2).drop_last() =~= all.take(i + 1));
                assert(all.take(i + 2).last() == all[i + 1]);
                assert(all[i + 1] == mount_trashes.deep_view()[i as int]);
                assert(mount_trashes[i as int]@ == mount_trashes.deep_view()[i as int]);
            }
            if !mount_trashes[i].is_admin_trash {
                ordered.push(mount_trashes[i].duplicate());
                proof {
                    assert(ordered.deep_view() =~~= pre.push(mount_trashes.deep_view()[i as int]));
                }
            }
            proof {
                reveal(Seq::filter);
                assert(ordered.deep_view() =~~= admins + all.take(i + 2).filter(
                    |t: TrashView| !t.is_admin_trash,
                ));
            }
        }
        proof {
            assert(all.take(n + 1) =~= all);
            assert(ordered.deep_view() =~~= admin_first_spec(all));
        }
        UnifiedTrash { home_trash, trashes: ordered }
    }

    /// Every registered trash location.
    pub fn list_trashes(&self) -> (r: &Vec<Trash>)
        ensures
            r.deep_view() == self@.trashes,
    {
        &self.trashes
    }
}

/// What the caller read out of one metadata file of a trash's `info/`
/// directory: the file's name, its text, and whether the matching
/// payload exists under `files/`.
#[derive(Debug, Clone, PartialEq, Eq)]
pub struct InfoFile {
    pub name: Vec<u8>,
    pub content: String,
    pub payload_present: bool,
}

/// The mathematical content of an `InfoFile`.
pub ghost struct InfoFileView {
    pub name: Seq<u8>,
    pub content: Seq<char>,
    pub payload_present: bool,
}

impl View for InfoFile {
    type V = InfoFileView;

    open spec fn view(&self) -> InfoFileView {
        InfoFileView { name: self.name@, content: self.content@, payload_present: self.payload_present }
    }
}

impl DeepView for InfoFile {
    type V = InfoFileView;

    open spec fn deep_view(&self) -> InfoFileView {
        self@
    }
}

/// One listed entry: a parsed metadata record together with the index
/// of the registered trash it came from.
#[derive(Debug, Clone, PartialEq, Eq)]
pub struct ListedEntry {
    pub trash_index: usize,
    pub info: Trashinfo,
}

/// The mathematical content of a `ListedEntry`.
pub ghost struct ListedEntryView {
    pub trash_index: int,
    pub info: TrashinfoView,
}

impl View for ListedEntry {
    type V = ListedEntryView;

    open spec fn view(&self) -> ListedEntryView {
        ListedEntryView { trash_index: self.trash_index as int, info: self.info@ }
    }
}

impl DeepView for ListedEntry {
    type V = ListedEntryView;

    open spec fn deep_view(&self) -> ListedEntryView {
        self@
    }
}

/// The entries one trash contributes to a listing, read from its
/// metadata files from index `j` on: each file is parsed against the
/// trash's mount point, a file whose payload is missing — an orphan —
/// is left out, and the first parse failure fails the whole listing.
pub open spec fn entries_from(dev_root: Seq<u8>, infos: Seq<InfoFileView>, j: int) -> Result<
    Seq<TrashinfoView>,
    TrashError,
>
    decreases infos.len() - j,
{
    if j < 0 || j >= infos.len() {
        Ok(Seq::empty())
    } else {
        match parse_trashinfo_spec(infos[j].name, infos[j].content, dev_root) {
            Err(e) => Err(e),
            Ok(v) => match entries_from(dev_root, infos, j + 1) {
                Err(e) => Err(e),
                Ok(rest) => Ok(
                    if infos[j].payload_present {
                        seq![v] + rest
                    } else {
                        rest
                    },
                ),
            },
        }
    }
}

/// The entries one trash contributes to a listing.
pub open spec fn trash_entries_spec(dev_root: Seq<u8>, infos: Seq<InfoFileView>) -> Result<
    Seq<TrashinfoView>,
    TrashError,
> {
    entries_from(dev_root, infos, 0)
}

/// The full listing from trash index `t` on: the concatenation, in
/// registration order, of every trash's entries, each paired with its
/// trash's index.
pub open spec fn list_from(
    trashes: Seq<TrashView>,
    snaps: Seq<Seq<InfoFileView>>,
    t: int,
) -> Result<Seq<ListedEntryView>, TrashError>
    decreases trashes.len() - t,
{
    if t < 0 || t >= trashes.len() {
        Ok(Seq::empty())
    } else {
        match trash_entries_spec(trashes[t].dev_root, snaps[t]) {
            Err(e) => Err(e),
            Ok(es) => match list_from(trashes, snaps, t + 1) {
                Err(e) => Err(e),
                Ok(rest) => Ok(
                    Seq::new(es.len(), |k: int| ListedEntryView { trash_index: t, info: es[k] })
                        + rest,
                ),
            },
        }
    }
}

/// The full listing across all registered trashes.
pub open spec fn list_spec(trashes: Seq<TrashView>, snaps: Seq<Seq<InfoFileView>>) -> Result<
    Seq<ListedEntryView>,
    TrashError,
> {
    list_from(trashes, snaps, 0)
}

impl UnifiedTrash {
    /// Lists the currently trashed files, as `list_spec` states it,
    /// from a snapshot of every registered trash's `info/` directory.
    /// An entry whose payload is missing is an orphan and is excluded;
    /// a metadata file that does not parse fails the whole listing.
    ///
    /// The listing order is the registration order of the trashes and,
    /// within one trash, the order of its snapshot; no sorting by any
    /// entry field happens here.
    pub fn list(&self, snapshots: &Vec<Vec<InfoFile>>) -> (r: Result<Vec<ListedEntry>, TrashError>)
        requires
            snapshots.deep_view().len() == self@.trashes.len(),
        ensures
            match r {
                Ok(es) => list_spec(self@.trashes, snapshots.deep_view()) == Ok::<
                    Seq<ListedEntryView>,
                    TrashError,
                >(es.deep_view()),
                Err(e) => list_spec(self@.trashes, snapshots.deep_view()) == Err::<
                    Seq<ListedEntryView>,
                    TrashError,
                >(e),
            },
    {
        let ghost tvs = self@.trashes;
        let ghost sns = snapshots.deep_view();
        let mut acc: Vec<ListedEntry> = Vec::new();
        proof {
            assert(acc.deep_view() =~~= Seq::<ListedEntryView>::empty());
        }
        let nt = self.trashes.len();
        for t in 0..nt
            invariant
                nt == tvs.len(),
                tvs == self@.trashes,
                sns == snapshots.deep_view(),
                sns.len() == tvs.len(),
                list_from(tvs, sns, t as int) is Ok ==> list_spec(tvs, sns) == Ok::<
                    Seq<ListedEntryView>,
                    TrashError,
                >(acc.deep_view() + list_from(tvs, sns, t as int)->Ok_0),
                list_from(tvs, sns, t as int) is Err ==> list_spec(tvs, sns) == Err::<
                    Seq<ListedEntryView>,
                    TrashError,
                >(list_from(tvs, sns, t as int)->Err_0),
        {
            let ghost dr = tvs[t as int].dev_root;
            let ghost infos = sns[t as int];
            let mut tacc: Vec<Trashinfo> = Vec::new();
            proof {
                assert(self.trashes[t as int]@ == tvs[t as int]);
                assert(snapshots[t as int].deep_view() =~~= infos);
                assert(tacc.deep_view() =~~= Seq::<TrashinfoView>::empty());
            }
            let nf = snapshots[t].len();
            for j in 0..nf
                invariant
                    nf == infos.len(),
                    tvs == self@.trashes,
                    sns == snapshots.deep_view(),
                    sns.len() == tvs.len(),
                    t < tvs.len(),
                    dr == tvs[t as int].dev_root,
                    infos == sns[t as int],
                    snapshots[t as int].deep_view() == infos,
                    entries_from(dr, infos, j as int) is Ok ==> trash_entries_spec(dr, infos)
                        == Ok::<Seq<TrashinfoView>, TrashError>(
                        tacc.deep_view() + entries_from(dr, infos, j as int)->Ok_0,
                    ),
                    entries_from(dr, infos, j as int) is Err ==> trash_entries_spec(dr, infos)
                        == Err::<Seq<TrashinfoView>, TrashError>(
                        entries_from(dr, infos, j as int)->Err_0,
                    ),
                    list_from(tvs, sns, t as int) is Ok ==> list_spec(tvs, sns) == Ok::<
                        Seq<ListedEntryView>,
                        TrashError,
                    >(acc.deep_view() + list_from(tvs, sns, t as int)->Ok_0),
                    list_from(tvs, sns, t as int) is Err ==> list_spec(tvs, sns) == Err::<
                        Seq<ListedEntryView>,
                        TrashError,
                    >(list_from(tvs, sns, t as int)->Err_0),
            {
                let file = self_snapshot_file(snapshots, t, j);
                proof {
                    assert(snapshots[t as int]@[j as int]@ == infos[j as int]);
                    assert(self.trashes[t as int]@ == tvs[t as int]);
                }
                match parse_trashinfo(
                    &file.name,
                    file.content.as_str(),
                    &self.trashes[t].dev_root,
                ) {
                    Err(e) => {
                        proof {
                            assert(entries_from(dr, infos, j as int)
                                == Err::<Seq<TrashinfoView>, TrashError>(e));
                            assert(trash_entries_spec(dr, infos) == Err::<
                                Seq<TrashinfoView>,
                                TrashError,
                            >(e));
                            assert(list_from(tvs, sns, t as int) == Err::<
                                Seq<ListedEntryView>,
                                TrashError,
                            >(e));
                        }
                        return Err(e);
                    },
                    Ok(entry) => {
                        let ghost pre = tacc.deep_view();
                        let ghost ev = entry@;
                        if file.payload_present {
                            tacc.push(entry);
                            proof {
                                assert(tacc.deep_view() =~~= pre.push(ev));
                            }
                        }
                        proof {
                            let rest = entries_from(dr, infos, j + 1);
                            if rest is Ok {
                                assert(entries_from(dr, infos, j as int) is Ok);
                                if infos[j as int].payload_present {
                                    assert(entries_from(dr, infos, j as int)->Ok_0 == seq![ev]
                                        + rest->Ok_0);
                                    assert(pre + (seq![ev] + rest->Ok_0) =~= pre.push(ev)
                                        + rest->Ok_0);
                                } else {
                                    assert(entries_from(dr, infos, j as int)->Ok_0
                                        == rest->Ok_0);
                                }
                            } else {
                                assert(entries_from(dr, infos, j as int) is Err);
                                assert(entries_from(dr, infos, j as int)->Err_0
                                    == rest->Err_0);
                            }
                        }
                    },
                }
            }
            proof {
                assert(entries_from(dr, infos, nf as int) == Ok::<Seq<TrashinfoView>, TrashError>(
                    Seq::empty(),
                ));
                assert(tacc.deep_view() + Seq::<TrashinfoView>::empty() =~= tacc.deep_view());
            }
            // append this trash's entries under its index
            let ghost tes = tacc.deep_view();
            let ghost pre_acc = acc.deep_view();
            let m = tacc.len();
            for jj in 0..m
                invariant
                    m == tes.len(),
                    tacc.deep_view() == tes,
                    t < tvs.len(),
                    acc.deep_view() == pre_acc + Seq::new(
                        jj as nat,
                        |k: int| ListedEntryView { trash_index: t as int, info: tes[k] },
                    ),
            {
                let ghost pre = acc.deep_view();
                let info = tacc[jj].duplicate();
                acc.push(ListedEntry { trash_index: t, info });
                proof {
                    assert(tacc[jj as int]@ == tes[jj as int]);
                    assert(acc.deep_view() =~~= pre.push(
                        ListedEntryView { trash_index: t as int, info: tes[jj as int] },
                    ));
                    assert(acc.deep_view() =~~= pre_acc + Seq::new(
                        (jj + 1) as nat,
                        |k: int| ListedEntryView { trash_index: t as int, info: tes[k] },
                    ));
                }
            }
            proof {
                assert(acc.deep_view() =~~= pre_acc + Seq::new(
                    tes.len(),
                    |k: int| ListedEntryView { trash_index: t as int, info: tes[k] },
                ));
                assert(entries_from(dr, infos, nf as int) == Ok::<Seq<TrashinfoView>, TrashError>(
                    Seq::empty(),
                ));
                assert(tes + Seq::<TrashinfoView>::empty() =~= tes);
                assert(trash_entries_spec(dr, infos) == Ok::<Seq<TrashinfoView>, TrashError>(tes));
                let rest = list_from(tvs, sns, t + 1);
                if rest is Ok {
                    assert(list_from(tvs, sns, t as int) is Ok);
                    let m_spec = Seq::new(
                        tes.len(),
                        |k: int| ListedEntryView { trash_index: t as int, info: tes[k] },
                    );
                    assert(list_from(tvs, sns, t as int)->Ok_0 =~= m_spec + rest->Ok_0);
                    assert(pre_acc + (m_spec + rest->Ok_0) =~= (pre_acc + m_spec) + rest->Ok_0);
                } else {
                    assert(list_from(tvs, sns, t as int) is Err);
                    assert(list_from(tvs, sns, t as int)->Err_0 == rest->Err_0);
                }
            }
        }
        proof {
            assert(list_from(tvs, sns, nt as int) == Ok::<Seq<ListedEntryView>, TrashError>(
                Seq::empty(),
            ));
            assert(acc.deep_view() + Seq::<ListedEntryView>::empty() =~= acc.deep_view());
        }
        Ok(acc)
    }
}

/// Borrows one snapshot file.
fn self_snapshot_file(snapshots: &Vec<Vec<InfoFile>>, t: usize, j: usize) -> (r: &InfoFile)
    requires
        t < snapshots@.len(),
        j < snapshots@[t as int]@.len(),
    ensures
        r == snapshots@[t as int]@[j as int],
{
    &snapshots[t][j]
}

/// Listing is idempotent: two listings without intervening mutation —
/// that is, over equal snapshots — return equal entry collections.
pub proof fn lemma_list_idempotent(
    trashes: Seq<TrashView>,
    s1: Seq<Seq<InfoFileView>>,
    s2: Seq<Seq<InfoFileView>>,
)
    requires
        s1 == s2,
    ensures
        list_spec(trashes, s1) == list_spec(trashes, s2),
{
}

/// The metadata files one trash would drop during orphan cleanup, from
/// index `j` on: each file is parsed as the listing parses it, and the
/// `info/` path of every file whose payload is missing is collected.
pub open spec fn orphans_from(t: TrashView, infos: Seq<InfoFileView>, j: int) -> Result<
    Seq<Seq<u8>>,
    TrashError,
>
    decreases infos.len() - j,
{
    if j < 0 || j >= infos.len() {
        Ok(Seq::empty())
    } else {
        match parse_trashinfo_spec(infos[j].name, infos[j].content, t.dev_root) {
            Err(e) => Err(e),
            Ok(v) => match orphans_from(t, infos, j + 1) {
                Err(e) => Err(e),
                Ok(rest) => Ok(
                    if !infos[j].payload_present {
                        seq![paths::join_spec(crate::trash::info_dir_of(t), infos[j].name)] + rest
                    } else {
                        rest
                    },
                ),
            },
        }
    }
}

/// The orphan cleanup set of one trash.
pub open spec fn trash_orphans_spec(t: TrashView, infos: Seq<InfoFileView>) -> Result<
    Seq<Seq<u8>>,
    TrashError,
> {
    orphans_from(t, infos, 0)
}

/// The orphan cleanup set across all trashes from index `t` on.
pub open spec fn orphans_list_from(
    trashes: Seq<TrashView>,
    snaps: Seq<Seq<InfoFileView>>,
    t: int,
) -> Result<Seq<Seq<u8>>, TrashError>
    decreases trashes.len() - t,
{
    if t < 0 || t >= trashes.len() {
        Ok(Seq::empty())
    } else {
        match trash_orphans_spec(trashes[t], snaps[t]) {
            Err(e) => Err(e),
            Ok(os) => match orphans_list_from(trashes, snaps, t + 1) {
                Err(e) => Err(e),
                Ok(rest) => Ok(os + rest),
            },
        }
    }
}

/// The orphan cleanup set across all trashes.
pub open spec fn orphans_spec(trashes: Seq<TrashView>, snaps: Seq<Seq<InfoFileView>>) -> Result<
    Seq<Seq<u8>>,
    TrashError,
> {
    orphans_list_from(trashes, snaps, 0)
}

impl UnifiedTrash {
    /// Computes the metadata files to drop during orphan cleanup: the
    /// `info/` path of every metadata file, across every registered
    /// trash, whose payload is missing.  The caller removes them.
    /// Unlike `list`, which skips orphans, this bypasses the
    /// payload-exists filter and reports exactly the orphans.
    pub fn remove_orphaned(&self, snapshots: &Vec<Vec<InfoFile>>) -> (r: Result<
        Vec<Vec<u8>>,
        TrashError,
    >)
        requires
            snapshots.deep_view().len() == self@.trashes.len(),
        ensures
            match r {
                Ok(ps) => orphans_spec(self@.trashes, snapshots.deep_view()) == Ok::<
                    Seq<Seq<u8>>,
                    TrashError,
                >(ps.deep_view()),
                Err(e) => orphans_spec(self@.trashes, snapshots.deep_view()) == Err::<
                    Seq<Seq<u8>>,
                    TrashError,
                >(e),
            },
    {
        let ghost tvs = self@.trashes;
        let ghost sns = snapshots.deep_view();
        let mut acc: Vec<Vec<u8>> = Vec::new();
        proof {
            assert(acc.deep_view() =~~= Seq::<Seq<u8>>::empty());
        }
        let nt = self.trashes.len();
        for t in 0..nt
            invariant
                nt == tvs.len(),
                tvs == self@.trashes,
                sns == snapshots.deep_view(),
                sns.len() == tvs.len(),
                orphans_list_from(tvs, sns, t as int) is Ok ==> orphans_spec(tvs, sns) == Ok::<
                    Seq<Seq<u8>>,
                    TrashError,
                >(acc.deep_view() + orphans_list_from(tvs, sns, t as int)->Ok_0),
                orphans_list_from(tvs, sns, t as int) is Err ==> orphans_spec(tvs, sns) == Err::<
                    Seq<Seq<u8>>,
                    TrashError,
                >(orphans_list_from(tvs, sns, t as int)->Err_0),
        {
            let ghost tv = tvs[t as int];
            let ghost infos = sns[t as int];
            let info_dir = self.trashes[t].info_dir();
            let mut tacc: Vec<Vec<u8>> = Vec::new();
            proof {
                assert(self.trashes[t as int]@ == tvs[t as int]);
                assert(snapshots[t as int].deep_view() =~~= infos);
                assert(tacc.deep_view() =~~= Seq::<Seq<u8>>::empty());
            }
            let nf = snapshots[t].len();
            for j in 0..nf
                invariant
                    nf == infos.len(),
                    tvs == self@.trashes,
                    sns == snapshots.deep_view(),
                    sns.len() == tvs.len(),
                    t < tvs.len(),
                    tv == tvs[t as int],
                    infos == sns[t as int],
                    snapshots[t as int].deep_view() == infos,
                    info_dir@ == crate::trash::info_dir_of(tv),
                    orphans_from(tv, infos, j as int) is Ok ==> trash_orphans_spec(tv, infos)
                        == Ok::<Seq<Seq<u8>>, TrashError>(
                        tacc.deep_view() + orphans_from(tv, infos, j as int)->Ok_0,
                    ),
                    orphans_from(tv, infos, j as int) is Err ==> trash_orphans_spec(tv, infos)
                        == Err::<Seq<Seq<u8>>, TrashError>(
                        orphans_from(tv, infos, j as int)->Err_0,
                    ),
                    orphans_list_from(tvs, sns, t as int) is Ok ==> orphans_spec(tvs, sns)
                        == Ok::<Seq<Seq<u8>>, TrashError>(
                        acc.deep_view() + orphans_list_from(tvs, sns, t as int)->Ok_0,
                    ),
                    orphans_list_from(tvs, sns, t as int) is Err ==> orphans_spec(tvs, sns)
                        == Err::<Seq<Seq<u8>>, TrashError>(
                        orphans_list_from(tvs, sns, t as int)->Err_0,
                    ),
            {
                let file = self_snapshot_file(snapshots, t, j);
                proof {
                    assert(snapshots[t as int]@[j as int]@ == infos[j as int]);
                    assert(self.trashes[t as int]@ == tvs[t as int]);
                }
                match parse_trashinfo(
                    &file.name,
                    file.content.as_str(),
                    &self.trashes[t].dev_root,
                ) {
                    Err(e) => {
                        proof {
                            assert(orphans_from(tv, infos, j as int) == Err::<
                                Seq<Seq<u8>>,
                                TrashError,
                            >(e));
                            assert(trash_orphans_spec(tv, infos) == Err::<
                                Seq<Seq<u8>>,
                                TrashError,
                            >(e));
                            assert(orphans_list_from(tvs, sns, t as int) == Err::<
                                Seq<Seq<u8>>,
                                TrashError,
                            >(e));
                        }
                        return Err(e);
                    },
                    Ok(entry) => {
                        let ghost pre = tacc.deep_view();
                        if !file.payload_present {
                            let p = paths::join(&info_dir, &file.name);
                            tacc.push(p);
                            proof {
                                assert(tacc.deep_view() =~~= pre.push(paths::join_spec(
                                    crate::trash::info_dir_of(tv),
                                    infos[j as int].name,
                                )));
                            }
                        }
                        proof {
                            let rest = orphans_from(tv, infos, j + 1);
                            if rest is Ok {
                                assert(orphans_from(tv, infos, j as int) is Ok);
                                if !infos[j as int].payload_present {
                                    let it = paths::join_spec(
                                        crate::trash::info_dir_of(tv),
                                        infos[j as int].name,
                                    );
                                    assert(orphans_from(tv, infos, j as int)->Ok_0 == seq![it]
                                        + rest->Ok_0);
                                    assert(pre + (seq![it] + rest->Ok_0) =~= pre.push(it)
                                        + rest->Ok_0);
                                } else {
                                    assert(orphans_from(tv, infos, j as int)->Ok_0
                                        == rest->Ok_0);
                                }
                            } else {
                                assert(orphans_from(tv, infos, j as int) is Err);
                                assert(orphans_from(tv, infos, j as int)->Err_0 == rest->Err_0);
                            }
                        }
                    },
                }
            }
            // append this trash's orphan paths
            let ghost tes = tacc.deep_view();
            let ghost pre_acc = acc.deep_view();
            proof {
                assert(orphans_from(tv, infos, nf as int) == Ok::<Seq<Seq<u8>>, TrashError>(
                    Seq::empty(),
                ));
                assert(tes + Seq::<Seq<u8>>::empty() =~= tes);
                assert(trash_orphans_spec(tv, infos) == Ok::<Seq<Seq<u8>>, TrashError>(tes));
            }
            let m = tacc.len();
            for jj in 0..m
                invariant
                    m == tes.len(),
                    tacc.deep_view() == tes,
                    acc.deep_view() == pre_acc + tes.take(jj as int),
            {
                let ghost pre = acc.deep_view();
                let p = tacc[jj].clone();
                acc.push(p);
                proof {
                    assert(tacc[jj as int]@ == tes[jj as int]);
                    assert(acc.deep_view() =~~= pre.push(tes[jj as int]));
                    assert(pre.push(tes[jj as int]) =~= pre_acc + tes.take(jj + 1));
                }
            }
            proof {
                assert(tes.take(tes.len() as int) =~= tes);
                assert(acc.deep_view() =~~= pre_acc + tes);
                let rest = orphans_list_from(tvs, sns, t + 1);
                if rest is Ok {
                    assert(orphans_list_from(tvs, sns, t as int) is Ok);
                    assert(orphans_list_from(tvs, sns, t as int)->Ok_0 =~= tes + rest->Ok_0);
                    assert(pre_acc + (tes + rest->Ok_0) =~= (pre_acc + tes) + rest->Ok_0);
                } else {
                    assert(orphans_list_from(tvs, sns, t as int) is Err);
                    assert(orphans_list_from(tvs, sns, t as int)->Err_0 == rest->Err_0);
                }
            }
        }
        proof {
            assert(orphans_list_from(tvs, sns, nt as int) == Ok::<Seq<Seq<u8>>, TrashError>(
                Seq::empty(),
            ));
            assert(acc.deep_view() + Seq::<Seq<u8>>::empty() =~= acc.deep_view());
        }
        Ok(acc)
    }
}

/// Orphan detection: an entry whose payload is missing is excluded from
/// the listing but its metadata file is included in the orphan cleanup
/// set.  Within one `info/` directory the file names are unique, so the
/// missing entry is identified by its metadata file name.
pub proof fn lemma_orphan_detection(t: TrashView, infos: Seq<InfoFileView>, k: int)
    requires
        0 <= k < infos.len(),
        !infos[k].payload_present,
        trash_entries_spec(t.dev_root, infos) is Ok,
        forall|p: int, q: int|
            0 <= p < infos.len() && 0 <= q < infos.len() && p != q ==> #[trigger] infos[p].name
                != #[trigger] infos[q].name,
    ensures
        forall|e: TrashinfoView|
            trash_entries_spec(t.dev_root, infos)->Ok_0.contains(e)
                ==> e.trash_filename_trashinfo != infos[k].name,
        trash_orphans_spec(t, infos) is Ok,
        trash_orphans_spec(t, infos)->Ok_0.contains(
            paths::join_spec(crate::trash::info_dir_of(t), infos[k].name),
        ),
{
    lemma_orphan_detection_from(t, infos, 0, k);
}

/// The induction behind `lemma_orphan_detection`, over the start index.
proof fn lemma_orphan_detection_from(t: TrashView, infos: Seq<InfoFileView>, j: int, k: int)
    requires
        0 <= j <= infos.len(),
        0 <= k < infos.len(),
        !infos[k].payload_present,
        entries_from(t.dev_root, infos, j) is Ok,
        forall|p: int, q: int|
            0 <= p < infos.len() && 0 <= q < infos.len() && p != q ==> #[trigger] infos[p].name
                != #[trigger] infos[q].name,
    ensures
        forall|e: TrashinfoView|
            entries_from(t.dev_root, infos, j)->Ok_0.contains(e)
                ==> e.trash_filename_trashinfo != infos[k].name,
        orphans_from(t, infos, j) is Ok,
        j <= k ==> orphans_from(t, infos, j)->Ok_0.contains(
            paths::join_spec(crate::trash::info_dir_of(t), infos[k].name),
        ),
    decreases infos.len() - j,
{
    if j >= infos.len() {
    } else {
        lemma_orphan_detection_from(t, infos, j + 1, k);
        let v = parse_trashinfo_spec(infos[j].name, infos[j].content, t.dev_root)->Ok_0;
        let rest = entries_from(t.dev_root, infos, j + 1)->Ok_0;
        assert(v.trash_filename_trashinfo == infos[j].name);
        assert forall|e: TrashinfoView|
            entries_from(t.dev_root, infos, j)->Ok_0.contains(e) implies e.trash_filename_trashinfo
            != infos[k].name by {
            if infos[j].payload_present {
                assert(entries_from(t.dev_root, infos, j)->Ok_0 == seq![v] + rest);
                if e == v {
                    assert(j != k);
                    assert(infos[j].name != infos[k].name);
                } else {
                    let x = choose|x: int|
                        0 <= x < (seq![v] + rest).len() && (seq![v] + rest)[x] == e;
                    assert(rest[x - 1] == e);
                    assert(rest.contains(e));
                }
            } else {
                assert(entries_from(t.dev_root, infos, j)->Ok_0 == rest);
            }
        }
        if j <= k {
            let target = paths::join_spec(crate::trash::info_dir_of(t), infos[k].name);
            let orest = orphans_from(t, infos, j + 1)->Ok_0;
            if j == k {
                assert(orphans_from(t, infos, j)->Ok_0 == seq![target] + orest);
                assert((seq![target] + orest)[0] == target);
            } else {
                assert(orest.contains(target));
                let x = choose|x: int| 0 <= x < orest.len() && orest[x] == target;
                if !infos[j].payload_present {
                    let me = paths::join_spec(crate::trash::info_dir_of(t), infos[j].name);
                    assert((seq![me] + orest)[x + 1] == target);
                }
            }
        }
    }
}

/// The write target `put` chooses for a file.
#[derive(Debug, Clone, Copy, PartialEq, Eq, Structural)]
pub enum PutTarget {
    /// The file lives on the home trash's device.
    Home,
    /// The file lives on the device of the registered trash at this
    /// index.
    Existing(usize),
    /// No registered trash lives on the file's device: a new per-user
    /// trash is created at the file's mount root.
    NewTrash,
}

/// The first registered trash, at or after index `i`, on device `dev`.
pub open spec fn find_trash_by_dev_from(trashes: Seq<TrashView>, dev: u64, i: int) -> int
    decreases trashes.len() - i,
{
    if i < 0 || i >= trashes.len() {
        -1
    } else if trashes[i].device == dev {
        i
    } else {
        find_trash_by_dev_from(trashes, dev, i + 1)
    }
}

/// The first registered trash on device `dev`, or `-1`.
pub open spec fn find_trash_by_dev(trashes: Seq<TrashView>, dev: u64) -> int {
    find_trash_by_dev_from(trashes, dev, 0)
}

proof fn lemma_find_trash_found(trashes: Seq<TrashView>, dev: u64, i: int, j: int)
    requires
        0 <= i <= j < trashes.len(),
        trashes[j].device == dev,
        forall|k: int| i <= k < j ==> #[trigger] trashes[k].device != dev,
    ensures
        find_trash_by_dev_from(trashes, dev, i) == j,
    decreases trashes.len() - i,
{
    if i < j {
        lemma_find_trash_found(trashes, dev, i + 1, j);
    }
}

proof fn lemma_find_trash_none(trashes: Seq<TrashView>, dev: u64, i: int)
    requires
        forall|k: int| i <= k < trashes.len() && 0 <= k ==> #[trigger] trashes[k].device != dev,
    ensures
        find_trash_by_dev_from(trashes, dev, i) == -1,
    decreases trashes.len() - i,
{
    if 0 <= i && i < trashes.len() {
        lemma_find_trash_none(trashes, dev, i + 1);
    }
}

impl UnifiedTrash {
    /// Finds the registered trash on the given device, as
    /// `find_trash_by_dev` states it.
    pub fn find_by_device(&self, dev: u64) -> (r: Option<usize>)
        ensures
            match r {
                Some(i) => i as int == find_trash_by_dev(self@.trashes, dev) && i
                    < self@.trashes.len(),
                None => find_trash_by_dev(self@.trashes, dev) == -1,
            },
    {
        let ghost tvs = self@.trashes;
        let n = self.trashes.len();
        for i in 0..n
            invariant
                n == tvs.len(),
                tvs == self@.trashes,
                forall|k: int| 0 <= k < i ==> #[trigger] tvs[k].device != dev,
        {
            proof {
                assert(self.trashes[i as int]@ == tvs[i as int]);
            }
            if self.trashes[i].device == dev {
                proof {
                    lemma_find_trash_found(tvs, dev, 0, i as int);
                }
                return Some(i);
            }
        }
        proof {
            lemma_find_trash_none(tvs, dev, 0);
        }
        None
    }

    /// Decides where and under which name a file is trashed.
    ///
    /// `input_path` is the path as the caller named it, whose last
    /// component becomes the base name; `resolved_path` is its absolute
    /// form, judged by the system-path guard; `input_dev` is the
    /// device the file resides on; `existing_names` are the trash file
    /// names of every currently listed entry, system-wide.
    ///
    /// The chosen name is unique across every registered trash.  The
    /// target is the home trash for files on its device, else the first
    /// registered trash on the file's device, else a new trash to be
    /// created at the file's mount root.
    pub fn put_decision(
        &self,
        input_path: &Vec<u8>,
        resolved_path: &Vec<u8>,
        input_dev: u64,
        existing_names: &Vec<Vec<u8>>,
    ) -> (r: Result<(Vec<u8>, PutTarget), TrashError>)
        ensures
            r is Err <==> crate::trash::is_sys_path_spec(resolved_path@) || paths::file_name_spec(
                input_path@,
            ) is None,
            r is Err && crate::trash::is_sys_path_spec(resolved_path@) ==> r->Err_0
                == TrashError::SystemPath,
            r is Err && !crate::trash::is_sys_path_spec(resolved_path@) ==> r->Err_0
                == TrashError::NoFileName,
            r is Ok ==> r->Ok_0.0@ == naming::unique_name_spec(
                paths::file_name_spec(input_path@).unwrap(),
                existing_names.deep_view(),
            ) && !existing_names.deep_view().contains(r->Ok_0.0@),
            r is Ok ==> r->Ok_0.1 == (if input_dev == self@.home_trash.device {
                PutTarget::Home
            } else if find_trash_by_dev(self@.trashes, input_dev) >= 0 {
                PutTarget::Existing(find_trash_by_dev(self@.trashes, input_dev) as usize)
            } else {
                PutTarget::NewTrash
            }),
    {
        if crate::trash::is_sys_path(resolved_path) {
            return Err(TrashError::SystemPath);
        }
        let base = match paths::file_name(input_path) {
            None => {
                return Err(TrashError::NoFileName);
            },
            Some(b) => b,
        };
        proof {
            assert(base.deep_view() =~= base@);
            assert(paths::file_name_spec(input_path@) == Some(base@));
        }
        let name = naming::unique_name(&base, existing_names);
        let target = if input_dev == self.home_trash.device {
            PutTarget::Home
        } else {
            match self.find_by_device(input_dev) {
                Some(i) => PutTarget::Existing(i),
                None => PutTarget::NewTrash,
            }
        };
        Ok((name, target))
    }
}

/// Builds a new entry for `put`: the chosen trash file name, its
/// metadata file name, the deletion time, and the resolved original
/// path.
pub fn new_entry(name: Vec<u8>, deleted_at: Timestamp, original_filepath: Vec<u8>) -> (r:
    Trashinfo)
    ensures
        r@.trash_filename == name@,
        r@.trash_filename_trashinfo == name@ + crate::codec::trashinfo_ext_bytes(),
        r@.deleted_at == deleted_at,
        r@.original_filepath == original_filepath@,
{
    let trash_filename_trashinfo = crate::codec::append_trashinfo_ext(&name);
    Trashinfo { trash_filename: name, trash_filename_trashinfo, deleted_at, original_filepath }
}

/// The metadata write of one `put`, ready for the caller to execute:
/// create the metadata file exclusively with the given text, then move
/// the payload into `files/`; if the move fails, remove the metadata
/// file again and surface the move error.
#[derive(Debug, Clone, PartialEq, Eq)]
pub struct WritePlan {
    pub info_path: Vec<u8>,
    pub content: String,
    pub payload_from: Vec<u8>,
    pub payload_to: Vec<u8>,
}

/// The mathematical content of a `WritePlan`.
pub ghost struct WritePlanView {
    pub info_path: Seq<u8>,
    pub content: Seq<char>,
    pub payload_from: Seq<u8>,
    pub payload_to: Seq<u8>,
}

impl View for WritePlan {
    type V = WritePlanView;

    open spec fn view(&self) -> WritePlanView {
        WritePlanView {
            info_path: self.info_path@,
            content: self.content@,
            payload_from: self.payload_from@,
            payload_to: self.payload_to@,
        }
    }
}

/// The metadata text a trash stores for an entry: the absolute form in
/// the home trash, the relative form everywhere else.
pub open spec fn stored_text_spec(t: TrashView, info: TrashinfoView) -> Result<
    Seq<char>,
    TrashError,
> {
    if t.is_home_trash {
        Ok(crate::codec::serialize_spec(info.original_filepath, info.deleted_at))
    } else {
        let st = paths::strip_prefix_spec(info.original_filepath, t.dev_root);
        if st is Some && !paths::is_absolute_spec(st.unwrap()) {
            Ok(crate::codec::serialize_spec(st.unwrap(), info.deleted_at))
        } else {
            Err(TrashError::NotUnderRoot)
        }
    }
}

impl Trash {
    /// The write plan admitting `info` into this trash: where the
    /// metadata file goes, what it holds, and which move brings the
    /// payload in.  Fails only when a non-home trash cannot express the
    /// original path relative to its mount point.
    pub fn write_trashinfo(&self, info: &Trashinfo) -> (r: Result<WritePlan, TrashError>)
        ensures
            r is Ok <==> stored_text_spec(self@, info@) is Ok,
            r is Err ==> r->Err_0 == stored_text_spec(self@, info@)->Err_0,
            r is Ok ==> r->Ok_0@ == (WritePlanView {
                info_path: paths::join_spec(
                    crate::trash::info_dir_of(self@),
                    info@.trash_filename_trashinfo,
                ),
                content: stored_text_spec(self@, info@)->Ok_0,
                payload_from: info@.original_filepath,
                payload_to: paths::join_spec(
                    crate::trash::files_dir_of(self@),
                    info@.trash_filename,
                ),
            }),
    {
        let content = if self.is_home_trash {
            info.trashinfo_file()
        } else {
            match info.trashinfo_file_relative(&self.dev_root) {
                Ok(c) => c,
                Err(e) => {
                    return Err(e);
                },
            }
        };
        let info_path = paths::join(&self.info_dir(), &info.trash_filename_trashinfo);
        let payload_to = paths::join(&self.files_dir(), &info.trash_filename);
        Ok(
            WritePlan {
                info_path,
                content,
                payload_from: info.original_filepath.clone(),
                payload_to,
            },
        )
    }
}

/// The committed steps of a write plan: exclusive metadata creation,
/// then the payload move.
pub fn write_actions(plan: &WritePlan) -> (r: Vec<FsAction>)
    ensures
        r.deep_view() =~= seq![
            crate::fsmodel::FsActionView::CreateExclusive {
                path: plan@.info_path,
                content: plan@.content,
            },
            crate::fsmodel::FsActionView::Rename {
                from: plan@.payload_from,
                to: plan@.payload_to,
            },
        ],
{
    let mut r: Vec<FsAction> = Vec::new();
    r.push(
        FsAction::CreateExclusive { path: plan.info_path.clone(), content: plan.content.clone() },
    );
    r.push(
        FsAction::Rename { from: plan.payload_from.clone(), to: plan.payload_to.clone() },
    );
    r
}

/// The rollback of a write plan whose payload move failed: the metadata
/// file just created is removed again, so no orphaned record remains.
pub fn write_rollback_actions(plan: &WritePlan) -> (r: Vec<FsAction>)
    ensures
        r.deep_view() =~= seq![
            crate::fsmodel::FsActionView::RemoveFile { path: plan@.info_path },
        ],
{
    let mut r: Vec<FsAction> = Vec::new();
    r.push(FsAction::RemoveFile { path: plan.info_path.clone() });
    r
}

/// Atomic admission: when the payload move of a `put` fails, the
/// rollback leaves no metadata file behind — the disk is exactly as it
/// was before the metadata file was created.
pub proof fn lemma_put_rollback_atomic(d: Set<Seq<u8>>, plan: WritePlanView)
    requires
        !d.contains(plan.info_path),
    ensures
        !crate::fsmodel::run_actions(
            d,
            seq![
                crate::fsmodel::FsActionView::CreateExclusive {
                    path: plan.info_path,
                    content: plan.content,
                },
                crate::fsmodel::FsActionView::RemoveFile { path: plan.info_path },
            ],
        ).contains(plan.info_path),
        crate::fsmodel::run_actions(
            d,
            seq![
                crate::fsmodel::FsActionView::CreateExclusive {
                    path: plan.info_path,
                    content: plan.content,
                },
                crate::fsmodel::FsActionView::RemoveFile { path: plan.info_path },
            ],
        ) == d,
{
    let acts = seq![
        crate::fsmodel::FsActionView::CreateExclusive {
            path: plan.info_path,
            content: plan.content,
        },
        crate::fsmodel::FsActionView::RemoveFile { path: plan.info_path },
    ];
    let d1 = crate::fsmodel::apply_action(d, acts[0]);
    assert(acts.skip(1)[0] == acts[1]);
    assert(acts.skip(1).skip(1) =~= Seq::<crate::fsmodel::FsActionView>::empty());
    let d2 = crate::fsmodel::apply_action(d1, acts[1]);
    assert(crate::fsmodel::run_actions(d2, acts.skip(1).skip(1)) == d2);
    assert(crate::fsmodel::run_actions(d1, acts.skip(1)) == d2);
    assert(crate::fsmodel::run_actions(d, acts) == crate::fsmodel::run_actions(d1, acts.skip(1)));
    assert(d2 =~= d);
}

/// One entry selected for purging by `empty`: the payload to remove —
/// recursively when it is a directory, and treated as already satisfied
/// when it is missing — and the metadata file to remove after it.
#[derive(Debug, Clone, PartialEq, Eq)]
pub struct PurgeItem {
    pub files_path: Vec<u8>,
    pub info_path: Vec<u8>,
    pub original_filepath: Vec<u8>,
}

/// The mathematical content of a `PurgeItem`.
pub ghost struct PurgeItemView {
    pub files_path: Seq<u8>,
    pub info_path: Seq<u8>,
    pub original_filepath: Seq<u8>,
}

impl View for PurgeItem {
    type V = PurgeItemView;

    open spec fn view(&self) -> PurgeItemView {
        PurgeItemView {
            files_path: self.files_path@,
            info_path: self.info_path@,
            original_filepath: self.original_filepath@,
        }
    }
}

impl DeepView for PurgeItem {
    type V = PurgeItemView;

    open spec fn deep_view(&self) -> PurgeItemView {
        self@
    }
}

/// The paths one listed entry occupies in its trash.
pub open spec fn purge_item_of(trashes: Seq<TrashView>, e: ListedEntryView) -> PurgeItemView {
    PurgeItemView {
        files_path: paths::join_spec(
            crate::trash::files_dir_of(trashes[e.trash_index]),
            e.info.trash_filename,
        ),
        info_path: paths::join_spec(
            crate::trash::info_dir_of(trashes[e.trash_index]),
            e.info.trash_filename_trashinfo,
        ),
        original_filepath: e.info.original_filepath,
    }
}

/// What `empty` purges: every listed entry deleted strictly before the
/// threshold, in listing order.
pub open spec fn empty_plan_spec(
    trashes: Seq<TrashView>,
    entries: Seq<ListedEntryView>,
    threshold: Timestamp,
) -> Seq<PurgeItemView> {
    entries.filter(|e: ListedEntryView| e.info.deleted_at.lt_spec(threshold)).map_values(
        |e: ListedEntryView| purge_item_of(trashes, e),
    )
}

impl UnifiedTrash {
    /// Selects what `empty` removes, as `empty_plan_spec` states it: an
    /// entry is purged exactly when its deletion time lies strictly
    /// before the threshold.  An entry deleted at or after the
    /// threshold — tomorrow, under clock skew — is untouched.  In a dry
    /// run the caller only reports the items instead of executing them.
    pub fn empty_plan(&self, entries: &Vec<ListedEntry>, threshold: &Timestamp) -> (r: Vec<
        PurgeItem,
    >)
        requires
            forall|k: int|
                0 <= k < entries.deep_view().len() ==> 0 <= #[trigger] entries.deep_view()[k].trash_index
                    < self@.trashes.len(),
        ensures
            r.deep_view() == empty_plan_spec(self@.trashes, entries.deep_view(), *threshold),
    {
        let ghost tvs = self@.trashes;
        let ghost evs = entries.deep_view();
        let pred = Ghost(|e: ListedEntryView| e.info.deleted_at.lt_spec(*threshold));
        let mut r: Vec<PurgeItem> = Vec::new();
        proof {
            reveal(Seq::filter);
            assert(evs.take(0) =~= Seq::<ListedEntryView>::empty());
            assert(r.deep_view() =~~= evs.take(0).filter(pred@).map_values(
                |e: ListedEntryView| purge_item_of(tvs, e),
            ));
        }
        let n = entries.len();
        for i in 0..n
            invariant
                n == evs.len(),
                evs == entries.deep_view(),
                tvs == self@.trashes,
                pred@ == (|e: ListedEntryView| e.info.deleted_at.lt_spec(*threshold)),
                forall|k: int| 0 <= k < evs.len() ==> 0 <= #[trigger] evs[k].trash_index < tvs.len(),
                r.deep_view() == evs.take(i as int).filter(pred@).map_values(
                    |e: ListedEntryView| purge_item_of(tvs, e),
                ),
        {
            let ghost pre = r.deep_view();
            let e = &entries[i];
            proof {
                assert(entries[i as int]@ == evs[i as int]);
                assert(evs.take(i + 1).drop_last() =~= evs.take(i as int));
                assert(evs.take(i + 1).last() == evs[i as int]);
            }
            if e.info.deleted_at.lt(threshold) {
                let ti = e.trash_index;
                proof {
                    assert(ti as int == evs[i as int].trash_index);
                    assert(0 <= evs[i as int].trash_index < tvs.len());
                    assert(self.trashes@.len() == tvs.len());
                }
                let files_path = paths::join(
                    &self.trashes[ti].files_dir(),
                    &e.info.trash_filename,
                );
                let info_path = paths::join(
                    &self.trashes[ti].info_dir(),
                    &e.info.trash_filename_trashinfo,
                );
                let item = PurgeItem {
                    files_path,
                    info_path,
                    original_filepath: e.info.original_filepath.clone(),
                };
                proof {
                    assert(self.trashes[ti as int]@ == tvs[ti as int]);
                    assert(item@ == purge_item_of(tvs, evs[i as int]));
                }
                r.push(item);
                proof {
                    assert(r.deep_view() =~~= pre.push(purge_item_of(tvs, evs[i as int])));
                }
            }
            proof {
                reveal(Seq::filter);
                assert(r.deep_view() =~~= evs.take(i + 1).filter(pred@).map_values(
                    |e: ListedEntryView| purge_item_of(tvs, e),
                ));
            }
        }
        proof {
            assert(evs.take(n as int) =~= evs);
        }
        r
    }
}

/// The removal steps of one purge item or one permanent removal: drop
/// the payload — recursively for a directory — then the metadata file.
pub fn purge_actions(item: &PurgeItem) -> (r: Vec<FsAction>)
    ensures
        r.deep_view() =~= seq![
            crate::fsmodel::FsActionView::RemoveTree { path: item@.files_path },
            crate::fsmodel::FsActionView::RemoveFile { path: item@.info_path },
        ],
{
    let mut r: Vec<FsAction> = Vec::new();
    r.push(FsAction::RemoveTree { path: item.files_path.clone() });
    r.push(FsAction::RemoveFile { path: item.info_path.clone() });
    r
}

/// The outcome of matching a remove or restore query against the
/// listing.
#[derive(Debug, Clone, PartialEq, Eq)]
pub enum Selection {
    /// Exactly one entry matched: its index.
    One(usize),
    /// More than one matched: their indices, ascending.  The caller's
    /// disambiguation step picks one of them.
    Many(Vec<usize>),
}

impl UnifiedTrash {
    /// Matches a filter against the listing: `mask[i]` says whether
    /// entry `i` matched.  No match is an error; a single match is
    /// final; several matches are handed back for the caller to
    /// disambiguate.
    pub fn select_matches(&self, mask: &Vec<bool>) -> (r: Result<Selection, TrashError>)
        ensures
            match r {
                Err(e) => e == TrashError::NoMatches && forall|j: int|
                    0 <= j < mask@.len() ==> !mask@[j],
                Ok(Selection::One(i)) => i < mask@.len() && mask@[i as int] && forall|j: int|
                    0 <= j < mask@.len() && j != i ==> !mask@[j],
                Ok(Selection::Many(v)) => {
                    &&& v@.len() >= 2
                    &&& forall|k: int|
                        0 <= k < v@.len() ==> #[trigger] v@[k] < mask@.len() && mask@[v@[k] as int]
                    &&& forall|p: int, q: int| 0 <= p < q < v@.len() ==> v@[p] < v@[q]
                    &&& forall|j: int| 0 <= j < mask@.len() && mask@[j] ==> v@.contains(j as usize)
                },
            },
    {
        let mut idxs: Vec<usize> = Vec::new();
        let n = mask.len();
        for i in 0..n
            invariant
                n == mask@.len(),
                forall|k: int|
                    0 <= k < idxs@.len() ==> #[trigger] idxs@[k] < i && mask@[idxs@[k] as int],
                forall|p: int, q: int| 0 <= p < q < idxs@.len() ==> idxs@[p] < idxs@[q],
                forall|j: int| 0 <= j < i && mask@[j] ==> idxs@.contains(j as usize),
        {
            if mask[i] {
                let ghost pre = idxs@;
                idxs.push(i);
                proof {
                    assert(idxs@ == pre.push(i as usize));
                    assert(idxs@[pre.len() as int] == i as usize);
                    assert forall|j: int| 0 <= j < i + 1 && mask@[j] implies idxs@.contains(
                        j as usize,
                    ) by {
                        if j < i {
                            assert(pre.contains(j as usize));
                            let k = choose|k: int| 0 <= k < pre.len() && pre[k] == j as usize;
                            assert(idxs@[k] == j as usize);
                        }
                    }
                }
            } else {
                proof {
                    assert forall|j: int| 0 <= j < i + 1 && mask@[j] implies idxs@.contains(
                        j as usize,
                    ) by {
                        if j < i {
                            assert(idxs@.contains(j as usize));
                        }
                    }
                }
            }
        }
        if idxs.len() == 0 {
            proof {
                assert forall|j: int| 0 <= j < mask@.len() implies !mask@[j] by {
                    if mask@[j] {
                        assert(idxs@.contains(j as usize));
                    }
                }
            }
            return Err(TrashError::NoMatches);
        }
        if idxs.len() == 1 {
            let i = idxs[0];
            proof {
                assert forall|j: int| 0 <= j < mask@.len() && j != i implies !mask@[j] by {
                    if mask@[j] {
                        assert(idxs@.contains(j as usize));
                        let k = choose|k: int| 0 <= k < idxs@.len() && idxs@[k] == j as usize;
                        assert(k == 0);
                    }
                }
            }
            return Ok(Selection::One(i));
        }
        Ok(Selection::Many(idxs))
    }

    /// The paths a permanent removal touches: the entry's payload under
    /// `files/`, its metadata file under `info/`, and the original path
    /// that is reported back on success.
    pub fn remove_plan(&self, entry: &ListedEntry) -> (r: PurgeItem)
        requires
            0 <= entry@.trash_index < self@.trashes.len(),
        ensures
            r@ == purge_item_of(self@.trashes, entry@),
    {
        proof {
            assert(self.trashes@.len() == self@.trashes.len());
            assert(self.trashes[entry@.trash_index]@ == self@.trashes[entry@.trash_index]);
        }
        let ti = entry.trash_index;
        let files_path = paths::join(&self.trashes[ti].files_dir(), &entry.info.trash_filename);
        let info_path = paths::join(
            &self.trashes[ti].info_dir(),
            &entry.info.trash_filename_trashinfo,
        );
        PurgeItem { files_path, info_path, original_filepath: entry.info.original_filepath.clone() }
    }

    /// The restore steps for a chosen entry, or the refusal to take
    /// any.  When a filesystem object already exists at the original
    /// path the caller consults its overwrite confirmation; declining
    /// aborts with no step taken.  On proceeding the payload is moved
    /// back first and the metadata file is removed only after.
    pub fn restore_plan(&self, entry: &ListedEntry, original_exists: bool, confirmed: bool) -> (r:
        Result<Vec<FsAction>, TrashError>)
        requires
            0 <= entry@.trash_index < self@.trashes.len(),
        ensures
            r is Err <==> original_exists && !confirmed,
            r is Err ==> r->Err_0 == TrashError::Aborted,
            r is Ok ==> r->Ok_0.deep_view() =~= seq![
                crate::fsmodel::FsActionView::Rename {
                    from: purge_item_of(self@.trashes, entry@).files_path,
                    to: entry@.info.original_filepath,
                },
                crate::fsmodel::FsActionView::RemoveFile {
                    path: purge_item_of(self@.trashes, entry@).info_path,
                },
            ],
    {
        if original_exists && !confirmed {
            return Err(TrashError::Aborted);
        }
        let item = self.remove_plan(entry);
        let mut acts: Vec<FsAction> = Vec::new();
        acts.push(
            FsAction::Rename {
                from: item.files_path,
                to: entry.info.original_filepath.clone(),
            },
        );
        acts.push(FsAction::RemoveFile { path: item.info_path });
        Ok(acts)
    }
}

/// Restore safety: once the payload move back to the original path has
/// succeeded, the payload exists there, and it still exists there
/// whether or not the following metadata deletion succeeds.  The
/// restored file is never moved back into the trash; a stale metadata
/// file is preferred over risking the data in a second move.
pub proof fn lemma_restore_safety(
    d: Set<Seq<u8>>,
    files_path: Seq<u8>,
    original: Seq<u8>,
    info_path: Seq<u8>,
)
    requires
        d.contains(files_path),
        info_path != original,
    ensures
        crate::fsmodel::apply_action(
            d,
            crate::fsmodel::FsActionView::Rename { from: files_path, to: original },
        ).contains(original),
        crate::fsmodel::apply_action(
            crate::fsmodel::apply_action(
                d,
                crate::fsmodel::FsActionView::Rename { from: files_path, to: original },
            ),
            crate::fsmodel::FsActionView::RemoveFile { path: info_path },
        ).contains(original),
{
}

} // verus!
