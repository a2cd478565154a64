//! Physical trash locations and their discovery rules.
//!
//! A trash location owns a directory with `files/` and `info/` inside
//! it.  The home trash lives under the XDG data home; every mount may
//! carry an administrator-created `.Trash/<uid>` (valid only with the
//! sticky bit set and no symlink) and a per-user `.Trash-<uid>`.  The
//! decisions of discovery — which observed directory becomes a
//! registered trash — are made here over plain observation values; the
//! statting itself is the caller's.

use crate::decimal;
use crate::paths;
use crate::paths::{first_index_of_byte, is_absolute_spec, join_spec, lexical_absolute_spec, sep};
use vstd::prelude::*;

verus! {

/// One physical trash location.
#[derive(Debug, Clone, PartialEq, Eq)]
pub struct Trash {
    /// The user's XDG data-home trash; at most one exists.
    pub is_home_trash: bool,
    /// An administrator-created `.Trash/<uid>` directory; preferred as
    /// a write target over a per-user trash on the same mount.
    pub is_admin_trash: bool,
    /// The mount point this trash resides on, against which non-home
    /// entries store their paths relatively.
    pub dev_root: Vec<u8>,
    /// The trash directory itself, holding `files/` and `info/`.
    pub trash_path: Vec<u8>,
    /// Device id of the filesystem the trash resides on.
    pub device: u64,
}

/// The mathematical content of a `Trash`.
pub ghost struct TrashView {
    pub is_home_trash: bool,
    pub is_admin_trash: bool,
    pub dev_root: Seq<u8>,
    pub trash_path: Seq<u8>,
    pub device: u64,
}

impl View for Trash {
    type V = TrashView;

    open spec fn view(&self) -> TrashView {
        TrashView {
            is_home_trash: self.is_home_trash,
            is_admin_trash: self.is_admin_trash,
            dev_root: self.dev_root@,
            trash_path: self.trash_path@,
            device: self.device,
        }
    }
}

/// The bytes of the `files` directory name.
pub open spec fn files_name_spec() -> Seq<u8> {
    seq![102u8, 105, 108, 101, 115]
}

/// The bytes of the `info` directory name.
pub open spec fn info_name_spec() -> Seq<u8> {
    seq![105u8, 110, 102, 111]
}

/// The bytes of the administrator trash directory name `.Trash`.
pub open spec fn admin_trash_name_spec() -> Seq<u8> {
    seq![46u8, 84, 114, 97, 115, 104]
}

/// The bytes of `.Trash-<uid>`, the per-user trash directory name.
pub open spec fn user_trash_name_spec(uid: u64) -> Seq<u8> {
    admin_trash_name_spec() + seq![45u8] + decimal::dec_spec(uid as nat)
}

fn files_name() -> (r: Vec<u8>)
    ensures
        r@ == files_name_spec(),
{
    let mut r: Vec<u8> = Vec::new();
    r.push(102);
    r.push(105);
    r.push(108);
    r.push(101);
    r.push(115);
    proof {
        assert(r@ =~= files_name_spec());
    }
    r
}

fn info_name() -> (r: Vec<u8>)
    ensures
        r@ == info_name_spec(),
{
    let mut r: Vec<u8> = Vec::new();
    r.push(105);
    r.push(110);
    r.push(102);
    r.push(111);
    proof {
        assert(r@ =~= info_name_spec());
    }
    r
}

/// Builds the `.Trash` directory name.
pub fn admin_trash_name() -> (r: Vec<u8>)
    ensures
        r@ == admin_trash_name_spec(),
{
    let mut r: Vec<u8> = Vec::new();
    r.push(46);
    r.push(84);
    r.push(114);
    r.push(97);
    r.push(115);
    r.push(104);
    proof {
        assert(r@ =~= admin_trash_name_spec());
    }
    r
}

/// Builds the `.Trash-<uid>` directory name.
pub fn user_trash_name(uid: u32) -> (r: Vec<u8>)
    ensures
        r@ == user_trash_name_spec(uid as u64),
{
    let mut r = admin_trash_name();
    r.push(45);
    let digits = decimal::to_decimal(uid as u128);
    let n = digits.len();
    let ghost head = r@;
    for i in 0..n
        invariant
            n == digits@.len(),
            r@ == head + digits@.subrange(0, i as int),
    {
        r.push(digits[i]);
        assert(r@ =~= head + digits@.subrange(0, i + 1));
    }
    proof {
        assert(digits@.subrange(0, digits@.len() as int) =~= digits@);
        assert(head + digits@ =~= user_trash_name_spec(uid as u64));
    }
    r
}

impl Trash {
    /// A trash location from its already-ensured directory paths.
    /// Creating `files/` and `info/` on disk is the caller's step; this
    /// constructor only records the location.
    pub fn new_with_ensure(
        trash_path: Vec<u8>,
        dev_root: Vec<u8>,
        device: u64,
        is_home_trash: bool,
        is_admin_trash: bool,
    ) -> (r: Trash)
        ensures
            r@ == (TrashView {
                is_home_trash,
                is_admin_trash,
                dev_root: dev_root@,
                trash_path: trash_path@,
                device,
            }),
    {
        Trash { is_home_trash, is_admin_trash, dev_root, trash_path, device }
    }

    /// Computes the `files/` directory path.
    pub fn files_dir(&self) -> (r: Vec<u8>)
        ensures
            r@ == files_dir_of(self@),
    {
        paths::join(&self.trash_path, &files_name())
    }

    /// Computes the `info/` directory path.
    pub fn info_dir(&self) -> (r: Vec<u8>)
        ensures
            r@ == info_dir_of(self@),
    {
        paths::join(&self.trash_path, &info_name())
    }

    /// A field-for-field copy of this location.
    pub fn duplicate(&self) -> (r: Trash)
        ensures
            r@ == self@,
    {
        Trash {
            is_home_trash: self.is_home_trash,
            is_admin_trash: self.is_admin_trash,
            dev_root: self.dev_root.clone(),
            trash_path: self.trash_path.clone(),
            device: self.device,
        }
    }
}

/// The `files/` directory of a trash location, holding the payloads.
pub open spec fn files_dir_of(t: TrashView) -> Seq<u8> {
    join_spec(t.trash_path, files_name_spec())
}

/// The `info/` directory of a trash location, holding the metadata.
pub open spec fn info_dir_of(t: TrashView) -> Seq<u8> {
    join_spec(t.trash_path, info_name_spec())
}

/// The well-known top-level directory names under which trashing is
/// refused: `boot`, `dev`, `proc`, `lost+found`, `sys`, `tmp`.
pub open spec fn sys_dir_names() -> Seq<Seq<u8>> {
    seq![
        seq![98u8, 111, 111, 116],
        seq![100u8, 101, 118],
        seq![112u8, 114, 111, 99],
        seq![108u8, 111, 115, 116, 43, 102, 111, 117, 110, 100],
        seq![115u8, 121, 115],
        seq![116u8, 109, 112],
    ]
}

/// The first component of a normalized absolute path: the bytes after
/// the leading `/` up to the next `/`.
pub open spec fn first_component_spec(norm: Seq<u8>) -> Seq<u8> {
    let rest = norm.skip(1);
    let i = first_index_of_byte(rest, sep());
    if i < 0 {
        rest
    } else {
        rest.subrange(0, i)
    }
}

/// Whether `p` names a place where trashing a file would probably be a
/// bad idea: the root itself, or anything under one of the well-known
/// system directories.  The judgement is lexical — `.` and `..` are
/// resolved, symlinks are not — and a relative path is never a system
/// path.  This is a heuristic safety guard, not a security boundary.
pub open spec fn is_sys_path_spec(p: Seq<u8>) -> bool {
    if !is_absolute_spec(p) {
        false
    } else {
        let norm = lexical_absolute_spec(p, seq![sep()]);
        norm == seq![sep()] || sys_dir_names().contains(first_component_spec(norm))
    }
}

/// Judges a path as `is_sys_path_spec` states it.
pub fn is_sys_path(p: &Vec<u8>) -> (r: bool)
    ensures
        r == is_sys_path_spec(p@),
{
    if !paths::is_absolute(p) {
        return false;
    }
    let mut root: Vec<u8> = Vec::new();
    root.push(paths::SEP);
    proof {
        assert(root@ =~= seq![sep()]);
    }
    let norm = paths::lexical_absolute(p, &root);
    if norm.len() == 1 && norm[0] == paths::SEP {
        proof {
            assert(norm@ =~= seq![sep()]);
        }
        return true;
    }
    proof {
        assert(norm@ != seq![sep()]) by {
            if norm@ == seq![sep()] {
                assert(norm@.len() == 1 && norm@[0] == sep());
            }
        }
    }
    // extract the first component of the normalized path
    let rest_start: usize = 1;
    let mut fc: Vec<u8> = Vec::new();
    let n = norm.len();
    let mut k: usize = rest_start;
    proof {
        paths::lemma_lexical_absolute_absolute(p@, seq![sep()]);
        assert(fc@ =~= norm@.subrange(1, 1));
    }
    while k < n && norm[k] != paths::SEP
        invariant
            1 <= k <= n == norm@.len(),
            fc@ == norm@.subrange(1, k as int),
            forall|j: int| 1 <= j < k ==> norm@[j] != sep(),
        decreases n - k,
    {
        fc.push(norm[k]);
        assert(fc@ =~= norm@.subrange(1, k + 1));
        k = k + 1;
    }
    proof {
        let rest = norm@.skip(1);
        paths::lemma_first_index_of_byte(rest, sep());
        let fi = first_index_of_byte(rest, sep());
        if k < n {
            // stopped on a separator
            assert(rest[k - 1] == norm@[k as int]);
            assert(fi == k - 1) by {
                if fi < k - 1 && fi >= 0 {
                    assert(rest[fi] == norm@[fi + 1]);
                }
                if fi < 0 {
                    assert(rest[k - 1] != sep());
                }
                if fi > k - 1 {
                    assert(rest[k - 1] != sep());
                }
            }
            assert(fc@ =~= rest.subrange(0, fi));
        } else {
            assert(fi == -1) by {
                if fi >= 0 {
                    assert(rest[fi] == norm@[fi + 1]);
                }
            }
            assert(fc@ =~= rest);
        }
        assert(fc@ == first_component_spec(norm@));
    }
    let mut name: Vec<u8> = Vec::new();
    // boot
    name.push(98);
    name.push(111);
    name.push(111);
    name.push(116);
    let m0 = paths::bytes_eq(fc.as_slice(), name.as_slice());
    proof {
        assert(name@ =~= sys_dir_names()[0]);
    }
    // dev
    name = Vec::new();
    name.push(100);
    name.push(101);
    name.push(118);
    let m1 = paths::bytes_eq(fc.as_slice(), name.as_slice());
    proof {
        assert(name@ =~= sys_dir_names()[1]);
    }
    // proc
    name = Vec::new();
    name.push(112);
    name.push(114);
    name.push(111);
    name.push(99);
    let m2 = paths::bytes_eq(fc.as_slice(), name.as_slice());
    proof {
        assert(name@ =~= sys_dir_names()[2]);
    }
    // lost+found
    name = Vec::new();
    name.push(108);
    name.push(111);
    name.push(115);
    name.push(116);
    name.push(43);
    name.push(102);
    name.push(111);
    name.push(117);
    name.push(110);
    name.push(100);
    let m3 = paths::bytes_eq(fc.as_slice(), name.as_slice());
    proof {
        assert(name@ =~= sys_dir_names()[3]);
    }
    // sys
    name = Vec::new();
    name.push(115);
    name.push(121);
    name.push(115);
    let m4 = paths::bytes_eq(fc.as_slice(), name.as_slice());
    proof {
        assert(name@ =~= sys_dir_names()[4]);
    }
    // tmp
    name = Vec::new();
    name.push(116);
    name.push(109);
    name.push(112);
    let m5 = paths::bytes_eq(fc.as_slice(), name.as_slice());
    proof {
        assert(name@ =~= sys_dir_names()[5]);
    }
    let hit = m0 || m1 || m2 || m3 || m4 || m5;
    proof {
        if hit {
            assert(sys_dir_names().contains(fc@));
        } else {
            assert(!sys_dir_names().contains(fc@)) by {
                assert forall|i: int| 0 <= i < sys_dir_names().len() implies sys_dir_names()[i]
                    != fc@ by {
                    if i == 0 {
                    } else if i == 1 {
                    } else if i == 2 {
                    } else if i == 3 {
                    } else if i == 4 {
                    } else {
                        assert(i == 5);
                    }
                }
            }
        }
    }
    hit
}

impl DeepView for Trash {
    type V = TrashView;

    open spec fn deep_view(&self) -> TrashView {
        self@
    }
}

/// The bytes of `.local`.
pub open spec fn dot_local_name_spec() -> Seq<u8> {
    seq![46u8, 108, 111, 99, 97, 108]
}

/// The bytes of `share`.
pub open spec fn share_name_spec() -> Seq<u8> {
    seq![115u8, 104, 97, 114, 101]
}

/// The bytes of `Trash`, the home trash directory name.
pub open spec fn home_trash_dir_name_spec() -> Seq<u8> {
    seq![84u8, 114, 97, 115, 104]
}

/// The XDG data directory: the explicit override when set, else
/// `<home>/.local/share`.
pub open spec fn xdg_data_dir_spec(home: Seq<u8>, xdg: Option<Seq<u8>>) -> Seq<u8> {
    match xdg {
        Some(x) => x,
        None => join_spec(join_spec(home, dot_local_name_spec()), share_name_spec()),
    }
}

/// The home trash location: its directory and the data-home root it
/// resides on, computed from the home directory and the optional XDG
/// data-home override.
pub fn home_trash_paths(home: &Vec<u8>, xdg: &Option<Vec<u8>>) -> (r: (Vec<u8>, Vec<u8>))
    ensures
        r.1@ == xdg_data_dir_spec(home@, xdg.deep_view()),
        r.0@ == join_spec(r.1@, home_trash_dir_name_spec()),
{
    let data_dir: Vec<u8> = match xdg {
        Some(x) => x.clone(),
        None => {
            let mut dl: Vec<u8> = Vec::new();
            dl.push(46);
            dl.push(108);
            dl.push(111);
            dl.push(99);
            dl.push(97);
            dl.push(108);
            proof {
                assert(dl@ =~= dot_local_name_spec());
            }
            let mut sh: Vec<u8> = Vec::new();
            sh.push(115);
            sh.push(104);
            sh.push(97);
            sh.push(114);
            sh.push(101);
            proof {
                assert(sh@ =~= share_name_spec());
            }
            paths::join(&paths::join(home, &dl), &sh)
        },
    };
    let mut tn: Vec<u8> = Vec::new();
    tn.push(84);
    tn.push(114);
    tn.push(97);
    tn.push(115);
    tn.push(104);
    proof {
        assert(tn@ =~= home_trash_dir_name_spec());
    }
    let trash_path = paths::join(&data_dir, &tn);
    (trash_path, data_dir)
}

/// The registered trashes of one mount, given what the caller observed
/// there.
///
/// `admin` is `None` when `<mount>/.Trash` does not exist, else
/// `(sticky, is_symlink, device, uid_dir_ok)` where `uid_dir_ok` says
/// `<mount>/.Trash/<uid>` with `files/` and `info/` could be ensured.
/// The admin trash is registered only when the sticky bit is set, the
/// directory is no symlink, and its per-uid subdirectory was ensured.
/// `user` is `None` when `<mount>/.Trash-<uid>` does not exist, else
/// `(device, ensure_ok)`; it is registered independently of the admin
/// outcome, admin first.
pub open spec fn mount_trashes_spec(
    mount: Seq<u8>,
    uid: u64,
    admin: Option<(bool, bool, u64, bool)>,
    user: Option<(u64, bool)>,
) -> Seq<TrashView> {
    let admin_part = match admin {
        Some(a) => if a.0 && !a.1 && a.3 {
            seq![
                TrashView {
                    is_home_trash: false,
                    is_admin_trash: true,
                    dev_root: mount,
                    trash_path: join_spec(
                        join_spec(mount, admin_trash_name_spec()),
                        decimal::dec_spec(uid as nat),
                    ),
                    device: a.2,
                },
            ]
        } else {
            Seq::empty()
        },
        None => Seq::empty(),
    };
    let user_part = match user {
        Some(u) => if u.1 {
            seq![
                TrashView {
                    is_home_trash: false,
                    is_admin_trash: false,
                    dev_root: mount,
                    trash_path: join_spec(mount, user_trash_name_spec(uid)),
                    device: u.0,
                },
            ]
        } else {
            Seq::empty()
        },
        None => Seq::empty(),
    };
    admin_part + user_part
}

/// The `<mount>/.Trash/<uid>` directory, where the admin trash keeps
/// this user's entries.
pub fn admin_uid_dir_path(mount: &Vec<u8>, uid: u32) -> (r: Vec<u8>)
    ensures
        r@ == join_spec(
            join_spec(mount@, admin_trash_name_spec()),
            decimal::dec_spec(uid as nat),
        ),
{
    paths::join(&paths::join(mount, &admin_trash_name()), &decimal::to_decimal(uid as u128))
}

/// The `<mount>/.Trash-<uid>` directory, the per-user trash.
pub fn user_dir_path(mount: &Vec<u8>, uid: u32) -> (r: Vec<u8>)
    ensures
        r@ == join_spec(mount@, user_trash_name_spec(uid as u64)),
{
    paths::join(mount, &user_trash_name(uid))
}

/// Decides which trashes one mount contributes, as
/// `mount_trashes_spec` states it.
pub fn discover_mount(
    mount: &Vec<u8>,
    uid: u32,
    admin: Option<(bool, bool, u64, bool)>,
    user: Option<(u64, bool)>,
) -> (r: Vec<Trash>)
    ensures
        r.deep_view() == mount_trashes_spec(mount@, uid as u64, admin, user),
{
    let mut r: Vec<Trash> = Vec::new();
    if let Some(a) = admin {
        // the sticky bit must be set and the directory must not be a
        // symlink, and the per-uid subdirectory must have been ensured
        if a.0 && !a.1 && a.3 {
            r.push(
                Trash::new_with_ensure(
                    admin_uid_dir_path(mount, uid),
                    mount.clone(),
                    a.2,
                    false,
                    true,
                ),
            );
        }
    }
    if let Some(u) = user {
        if u.1 {
            r.push(
                Trash::new_with_ensure(user_dir_path(mount, uid), mount.clone(), u.0, false, false),
            );
        }
    }
    proof {
        assert(r.deep_view() =~~= mount_trashes_spec(mount@, uid as u64, admin, user));
    }
    r
}

/// The nonempty lines of the mount table, split at `\n`, collected
/// onto `acc` with `cur` the partial line read so far.
pub open spec fn mount_lines_fold(s: Seq<u8>, acc: Seq<Seq<u8>>, cur: Seq<u8>) -> Seq<Seq<u8>>
    decreases s.len(),
{
    if s.len() == 0 {
        if cur.len() > 0 {
            acc.push(cur)
        } else {
            acc
        }
    } else if s[0] == 10 {
        mount_lines_fold(s.skip(1), if cur.len() > 0 { acc.push(cur) } else { acc }, Seq::empty())
    } else {
        mount_lines_fold(s.skip(1), acc, cur.push(s[0]))
    }
}

/// The nonempty lines of the mount table.
pub open spec fn mount_lines_spec(s: Seq<u8>) -> Seq<Seq<u8>> {
    mount_lines_fold(s, Seq::empty(), Seq::empty())
}

/// The second space-separated field of a mount table line — the mount
/// point — or `None` when the line holds no space at all.
pub open spec fn second_field_spec(line: Seq<u8>) -> Option<Seq<u8>> {
    let i = first_index_of_byte(line, 32);
    if i < 0 {
        None
    } else {
        let rest = line.skip(i + 1);
        let j = first_index_of_byte(rest, 32);
        if j < 0 {
            Some(rest)
        } else {
            Some(rest.subrange(0, j))
        }
    }
}

/// The mount points named by a mount table: the second field of every
/// nonempty line.  `None` when some line has no second field.
pub open spec fn parse_mounts_spec(s: Seq<u8>) -> Option<Seq<Seq<u8>>> {
    let ls = mount_lines_spec(s);
    if forall|i: int| 0 <= i < ls.len() ==> second_field_spec(#[trigger] ls[i]) is Some {
        Some(Seq::new(ls.len(), |i: int| second_field_spec(ls[i]).unwrap()))
    } else {
        None
    }
}

/// Extracts the second space-separated field of one line.
fn second_field(line: &Vec<u8>) -> (r: Option<Vec<u8>>)
    ensures
        r.deep_view() == second_field_spec(line@),
{
    proof {
        paths::lemma_first_index_of_byte(line@, 32);
    }
    let i = match paths::find_first_byte(line, 32) {
        None => {
            return None;
        },
        Some(i) => i,
    };
    let mut rest: Vec<u8> = Vec::new();
    let n = line.len();
    for k in (i + 1)..n
        invariant
            i < n == line@.len(),
            rest@ == line@.subrange(i + 1, k as int),
    {
        rest.push(line[k]);
        assert(rest@ =~= line@.subrange(i + 1, k + 1));
    }
    proof {
        assert(rest@ =~= line@.skip(i + 1));
    }
    match paths::find_first_byte(&rest, 32) {
        None => {
            proof {
                assert(rest.deep_view() =~= rest@);
            }
            Some(rest)
        },
        Some(j) => {
            proof {
                paths::lemma_first_index_of_byte(rest@, 32);
            }
            let mut field: Vec<u8> = Vec::new();
            proof {
                assert(field@ =~= rest@.subrange(0, 0));
            }
            for k in 0..j
                invariant
                    j < rest@.len(),
                    field@ == rest@.subrange(0, k as int),
            {
                field.push(rest[k]);
                assert(field@ =~= rest@.subrange(0, k + 1));
            }
            proof {
                assert(field.deep_view() =~= field@);
            }
            Some(field)
        },
    }
}

/// Splits the mount table into its nonempty lines, as
/// `mount_lines_spec` states it.
fn mount_table_lines(s: &Vec<u8>) -> (r: Vec<Vec<u8>>)
    ensures
        r.deep_view() == mount_lines_spec(s@),
{
    let mut acc: Vec<Vec<u8>> = Vec::new();
    let mut cur: Vec<u8> = Vec::new();
    proof {
        assert(s@.skip(0) =~= s@);
        assert(acc.deep_view() =~~= Seq::<Seq<u8>>::empty());
        assert(cur@ =~= Seq::<u8>::empty());
    }
    let n = s.len();
    for i in 0..n
        invariant
            n == s@.len(),
            mount_lines_fold(s@.skip(i as int), acc.deep_view(), cur@) == mount_lines_spec(s@),
    {
        let ghost pre_acc = acc.deep_view();
        let ghost pre_cur = cur@;
        proof {
            assert(s@.skip(i as int).skip(1) =~= s@.skip(i + 1));
            assert(s@.skip(i as int)[0] == s@[i as int]);
        }
        if s[i] == 10 {
            if cur.len() > 0 {
                acc.push(cur);
                cur = Vec::new();
                proof {
                    assert(acc.deep_view() =~~= pre_acc.push(pre_cur));
                    assert(cur@ =~= Seq::<u8>::empty());
                    assert(mount_lines_fold(s@.skip(i as int), pre_acc, pre_cur)
                        == mount_lines_fold(s@.skip(i as int + 1), acc.deep_view(), cur@));
                }
            } else {
                proof {
                    assert(cur@ =~= Seq::<u8>::empty());
                    assert(mount_lines_fold(s@.skip(i as int), pre_acc, pre_cur)
                        == mount_lines_fold(s@.skip(i as int + 1), acc.deep_view(), cur@));
                }
            }
        } else {
            cur.push(s[i]);
            proof {
                assert(cur@ =~= pre_cur.push(s@[i as int]));
                assert(mount_lines_fold(s@.skip(i as int), pre_acc, pre_cur) == mount_lines_fold(
                    s@.skip(i as int + 1),
                    acc.deep_view(),
                    cur@,
                ));
            }
        }
    }
    proof {
        assert(s@.skip(n as int) =~= Seq::<u8>::empty());
    }
    if cur.len() > 0 {
        let ghost pre_acc = acc.deep_view();
        let ghost pre_cur = cur@;
        acc.push(cur);
        proof {
            assert(acc.deep_view() =~~= pre_acc.push(pre_cur));
        }
    }
    acc
}

/// Reads the mount points out of the raw bytes of the mount table, as
/// `parse_mounts_spec` states it.  `None` reports a nonempty line
/// without a second field, on which the caller gives up as the mount
/// table is not in the expected format.
pub fn parse_mounts(s: &Vec<u8>) -> (r: Option<Vec<Vec<u8>>>)
    ensures
        match r {
            Some(ms) => parse_mounts_spec(s@) == Some(ms.deep_view()),
            None => parse_mounts_spec(s@) is None,
        },
{
    let ls = mount_table_lines(s);
    let ghost lsv = mount_lines_spec(s@);
    let mut out: Vec<Vec<u8>> = Vec::new();
    proof {
        assert(out.deep_view() =~~= Seq::<Seq<u8>>::empty());
    }
    let n = ls.len();
    for i in 0..n
        invariant
            n == ls.deep_view().len(),
            ls.deep_view() == lsv,
            lsv == mount_lines_spec(s@),
            forall|k: int| 0 <= k < i ==> second_field_spec(#[trigger] lsv[k]) is Some,
            out.deep_view() == Seq::new(i as nat, |k: int| second_field_spec(lsv[k]).unwrap()),
    {
        let ghost pre = out.deep_view();
        proof {
            assert(ls[i as int].deep_view() == lsv[i as int]);
            assert(ls[i as int]@ =~= ls[i as int].deep_view());
        }
        match second_field(&ls[i]) {
            None => {
                proof {
                    assert(second_field_spec(lsv[i as int]) is None);
                    assert(!(forall|k: int|
                        0 <= k < lsv.len() ==> second_field_spec(#[trigger] lsv[k]) is Some));
                }
                return None;
            },
            Some(f) => {
                let ghost fv = f@;
                proof {
                    assert(f.deep_view() =~= fv);
                    assert(second_field_spec(lsv[i as int]) == Some(fv));
                }
                out.push(f);
                proof {
                    assert(out.deep_view() =~~= pre.push(fv));
                    assert(out.deep_view() =~~= Seq::new(
                        (i + 1) as nat,
                        |k: int| second_field_spec(lsv[k]).unwrap(),
                    ));
                }
            },
        }
    }
    proof {
        assert(forall|i: int|
            0 <= i < lsv.len() ==> second_field_spec(#[trigger] lsv[i]) is Some);
        assert(out.deep_view() =~~= Seq::new(
            lsv.len(),
            |i: int| second_field_spec(lsv[i]).unwrap(),
        ));
    }
    Some(out)
}

} // verus!
