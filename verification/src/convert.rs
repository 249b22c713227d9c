//! Turning a resolved fragment tree into a build specification: base-image
//! validation, package-manager dialect resolution, install and script merging
//! with first-writer-wins de-duplication, and the fixed synthesis order.

use vstd::prelude::*;
use vstd::string::StrSliceExecFns;
use vstd::string::StringExecFns;

use crate::config::{PublishV, VolumeV};
use crate::docker::{CmdModel, Command, Dockerfile, User};
use crate::mixin::{file_name, nodes_view, parent_dir, path_depth, Mixin, NodeV};
use crate::mixin::{file_name_str, parent_dir_str, path_depth_str};
use crate::strutil::{ascii_lower, dec_str, find_char, join_char};
use crate::strutil::{join_strs, str_eq_lowered, u64_to_dec, vec_contains_str};

verus! {

// ---------------------------------------------------------------------------
// Errors
// ---------------------------------------------------------------------------

/// Failure of turning a resolved tree into a build specification.
#[derive(Debug)]
pub enum ConversionError {
    /// Two fragments declare a base image; both origin paths are named.
    MultipleBases { a: String, b: String },
    /// No fragment declares a base image.
    NoBase,
    /// The base image's distribution token matches no known dialect.
    UnknownBase(String),
}

/// The mathematical value of a conversion failure.
pub enum ConvErrV {
    MultipleBases(Seq<char>, Seq<char>),
    NoBase,
    UnknownBase(Seq<char>),
}

impl View for ConversionError {
    type V = ConvErrV;

    open spec fn view(&self) -> ConvErrV {
        match self {
            ConversionError::MultipleBases { a, b } => ConvErrV::MultipleBases(a@, b@),
            ConversionError::NoBase => ConvErrV::NoBase,
            ConversionError::UnknownBase(s) => ConvErrV::UnknownBase(s@),
        }
    }
}

// ---------------------------------------------------------------------------
// Package-manager dialects
// ---------------------------------------------------------------------------

/// The closed set of package-manager dialects.
#[derive(Debug, Clone, Copy, PartialEq, Eq, Structural)]
#[allow(non_camel_case_types)]
pub enum PackageManager {
    DNF,
    ZYPPER,
    PACMAN,
    APT,
    APK,
}

/// The dialect's install command prefix.
pub open spec fn spec_install_prefix(pm: PackageManager) -> Seq<char> {
    match pm {
        PackageManager::DNF => "dnf install -y"@,
        PackageManager::ZYPPER => "zypper install -y"@,
        PackageManager::PACMAN => "pacman -S --noconfirm"@,
        PackageManager::APT => "apt install -y"@,
        PackageManager::APK => "apk add"@,
    }
}

/// The dialect's full-system upgrade command.
pub open spec fn spec_upgrade(pm: PackageManager) -> Seq<char> {
    match pm {
        PackageManager::DNF => "dnf upgrade -y"@,
        PackageManager::ZYPPER => "zypper update -y"@,
        PackageManager::PACMAN => "pacman -Syu --noconfirm"@,
        PackageManager::APT => "apt update && apt upgrade -y"@,
        PackageManager::APK => "apk update"@,
    }
}

/// The install instruction for a package list.
pub open spec fn s_install_model(pm: PackageManager, packages: Seq<Seq<char>>) -> CmdModel {
    CmdModel::RUN(spec_install_prefix(pm) + " "@ + join_char(packages, ' '))
}

/// The dialect a base image reference resolves to: the token before the
/// first `:`, lower-cased, matched against the fixed distribution table.
pub open spec fn spec_dialect(s: Seq<char>) -> Option<PackageManager> {
    let pre = ascii_lower(s.take(find_char(s, ':')));
    if pre == "fedora"@ {
        Some(PackageManager::DNF)
    } else if pre == "debian"@ || pre == "ubuntu"@ {
        Some(PackageManager::APT)
    } else if pre == "opensuse/leap"@ || pre == "opensuse/tumbleweed"@ {
        Some(PackageManager::ZYPPER)
    } else if pre == "archlinux"@ {
        Some(PackageManager::PACMAN)
    } else if pre == "alpine"@ {
        Some(PackageManager::APK)
    } else {
        None
    }
}

/// The dialect-specific bootstrap emitted after the upgrade: UTF-8 locale
/// support, then passwordless sudo.
pub open spec fn spec_defaults(pm: PackageManager) -> Seq<CmdModel> {
    let locale = seq![
        CmdModel::COMMENT("Ensure UTF-8 Support"@),
        CmdModel::ENV("LANG"@, "en_US.UTF-8"@),
        CmdModel::ENV("LANGUAGE"@, "en_US:en"@),
        CmdModel::ENV("LC_ALL"@, "en_US.UTF-8"@),
    ];
    let dialect = match pm {
        PackageManager::DNF => seq![
            s_install_model(pm, seq!["glibc-locale-source"@]),
            CmdModel::RUN("localedef --force --inputfile=en_US --charmap=UTF-8 en_US.UTF-8"@),
        ],
        PackageManager::ZYPPER => seq![
            s_install_model(pm, seq!["glibc-locale"@, "glibc-i18ndata"@]),
        ],
        PackageManager::PACMAN => Seq::empty(),
        PackageManager::APT => seq![
            s_install_model(pm, seq!["locales"@]),
            CmdModel::ARG("DEBIAN_FRONTEND"@, "noninteractive"@),
            CmdModel::RUN("echo 'en_US.UTF-8 UTF-8' >> /etc/locale.gen"@),
            CmdModel::RUN("locale-gen"@),
        ],
        PackageManager::APK => Seq::empty(),
    };
    let sudo = seq![
        CmdModel::COMMENT("Installing sudo and allow sudo for anyone"@),
        s_install_model(pm, seq!["sudo"@]),
        CmdModel::RUN("echo 'ALL ALL = (ALL) NOPASSWD: ALL' >> /etc/sudoers"@),
    ];
    locale + dialect + sudo
}

impl PackageManager {
    /// The install command prefix.
    pub fn install_prefix(&self) -> (r: &'static str)
        ensures
            r@ == spec_install_prefix(*self),
    {
        match self {
            PackageManager::DNF => "dnf install -y",
            PackageManager::ZYPPER => "zypper install -y",
            PackageManager::PACMAN => "pacman -S --noconfirm",
            PackageManager::APT => "apt install -y",
            PackageManager::APK => "apk add",
        }
    }

    /// The full-system upgrade command.
    pub fn upgrade(&self) -> (r: &'static str)
        ensures
            r@ == spec_upgrade(*self),
    {
        match self {
            PackageManager::DNF => "dnf upgrade -y",
            PackageManager::ZYPPER => "zypper update -y",
            PackageManager::PACMAN => "pacman -Syu --noconfirm",
            PackageManager::APT => "apt update && apt upgrade -y",
            PackageManager::APK => "apk update",
        }
    }

    /// One install instruction covering the given packages.
    pub fn install(&self, packages: &Vec<String>) -> (r: Command)
        ensures
            r@ == s_install_model(*self, packages.deep_view()),
    {
        proof {
            reveal_strlit(" ");
            assert(" "@ =~= seq![' ']);
        }
        let joined = join_strs(packages, 0, packages.len(), " ");
        proof {
            assert(packages.deep_view().subrange(0, packages@.len() as int) =~= packages
                .deep_view());
        }
        let mut line = self.install_prefix().to_owned();
        line.append(" ");
        line.append(joined.as_str());
        let r = Command::RUN(line);
        proof {
            assert(r@ =~= s_install_model(*self, packages.deep_view()));
        }
        r
    }

    /// The dialect-specific bootstrap: UTF-8 locale support, then
    /// passwordless sudo.
    pub fn defaults(&self) -> (r: Vec<Command>)
        ensures
            r.deep_view() == spec_defaults(*self),
    {
        let mut r: Vec<Command> = Vec::new();
        r.push(Command::COMMENT("Ensure UTF-8 Support".to_owned()));
        r.push(Command::env("LANG", "en_US.UTF-8"));
        r.push(Command::env("LANGUAGE", "en_US:en"));
        r.push(Command::env("LC_ALL", "en_US.UTF-8"));
        match self {
            PackageManager::DNF => {
                let pkgs = vec!["glibc-locale-source".to_owned()];
                proof {
                    assert(pkgs.deep_view() =~= seq!["glibc-locale-source"@]);
                }
                r.push(self.install(&pkgs));
                r.push(
                    Command::RUN(
                        "localedef --force --inputfile=en_US --charmap=UTF-8 en_US.UTF-8"
                            .to_owned(),
                    ),
                );
            },
            PackageManager::ZYPPER => {
                let pkgs = vec!["glibc-locale".to_owned(), "glibc-i18ndata".to_owned()];
                proof {
                    assert(pkgs.deep_view() =~= seq!["glibc-locale"@, "glibc-i18ndata"@]);
                }
                r.push(self.install(&pkgs));
            },
            PackageManager::PACMAN => {},
            PackageManager::APT => {
                let pkgs = vec!["locales".to_owned()];
                proof {
                    assert(pkgs.deep_view() =~= seq!["locales"@]);
                }
                r.push(self.install(&pkgs));
                r.push(Command::arg("DEBIAN_FRONTEND", "noninteractive"));
                r.push(Command::RUN("echo 'en_US.UTF-8 UTF-8' >> /etc/locale.gen".to_owned()));
                r.push(Command::RUN("locale-gen".to_owned()));
            },
            PackageManager::APK => {},
        }
        r.push(Command::COMMENT("Installing sudo and allow sudo for anyone".to_owned()));
        let sudo_pkgs = vec!["sudo".to_owned()];
        proof {
            assert(sudo_pkgs.deep_view() =~= seq!["sudo"@]);
        }
        r.push(self.install(&sudo_pkgs));
        r.push(Command::RUN("echo 'ALL ALL = (ALL) NOPASSWD: ALL' >> /etc/sudoers".to_owned()));
        proof {
            assert(r.deep_view() =~= spec_defaults(*self));
        }
        r
    }

    /// Resolves the dialect of a base image reference, or reports the raw
    /// reference as unknown.
    pub fn from_str(s: &str) -> (r: Result<PackageManager, ConversionError>)
        ensures
            match r {
                Ok(pm) => spec_dialect(s@) == Some(pm),
                Err(e) => spec_dialect(s@) is None && (e@ matches ConvErrV::UnknownBase(t) && t
                    == s@),
            },
    {
        let len = s.unicode_len();
        let cut = crate::strutil::find_char_str(s, ':');
        let pre = s.substring_char(0, cut);
        proof {
            assert(pre@ == s@.subrange(0, cut as int));
            assert(s@.subrange(0, cut as int) =~= s@.take(find_char(s@, ':')));
        }
        if str_eq_lowered(pre, "fedora") {
            Ok(PackageManager::DNF)
        } else if str_eq_lowered(pre, "debian") || str_eq_lowered(pre, "ubuntu") {
            Ok(PackageManager::APT)
        } else if str_eq_lowered(pre, "opensuse/leap") || str_eq_lowered(pre, "opensuse/tumbleweed") {
            Ok(PackageManager::ZYPPER)
        } else if str_eq_lowered(pre, "archlinux") {
            Ok(PackageManager::PACMAN)
        } else if str_eq_lowered(pre, "alpine") {
            Ok(PackageManager::APK)
        } else {
            Err(ConversionError::UnknownBase(s.to_owned()))
        }
    }
}

// ---------------------------------------------------------------------------
// Host identity
// ---------------------------------------------------------------------------

/// The host identity mirrored into the image's user provisioning.
#[derive(Debug)]
pub struct HostIdentity {
    pub uid: u32,
    pub gid: u32,
    pub user_name: String,
    pub group_name: String,
}

/// The mathematical value of a host identity.
pub struct IdentityV {
    pub uid: u32,
    pub gid: u32,
    pub user_name: Seq<char>,
    pub group_name: Seq<char>,
}

impl View for HostIdentity {
    type V = IdentityV;

    open spec fn view(&self) -> IdentityV {
        IdentityV {
            uid: self.uid,
            gid: self.gid,
            user_name: self.user_name@,
            group_name: self.group_name@,
        }
    }
}

/// Relies on `users::get_current_uid`: the numeric user id of the calling
/// process. The value depends on the host, so nothing is promised of it.
#[verifier::external_body]
fn current_uid() -> u32 {
    users::get_current_uid()
}

/// Relies on `users::get_current_gid`: the numeric group id of the calling
/// process. The value depends on the host, so nothing is promised of it.
#[verifier::external_body]
fn current_gid() -> u32 {
    users::get_current_gid()
}

/// Relies on `users::get_current_username`: the name for the process's user
/// id, when the host knows one. Host-dependent; nothing is promised of it.
#[verifier::external_body]
fn current_username() -> Option<String> {
    users::get_current_username().map(|s| s.to_string_lossy().into_owned())
}

/// Relies on `users::get_current_groupname`: the name for the process's
/// group id, when the host knows one. Host-dependent; nothing is promised.
#[verifier::external_body]
fn current_groupname() -> Option<String> {
    users::get_current_groupname().map(|s| s.to_string_lossy().into_owned())
}

/// The invoking host's identity, when both names can be looked up.
pub fn current_host_identity() -> (r: Option<HostIdentity>) {
    let uid = current_uid();
    let gid = current_gid();
    let user_name = current_username();
    let group_name = current_groupname();
    match (user_name, group_name) {
        (Some(u), Some(g)) => Some(HostIdentity { uid, gid, user_name: u, group_name: g }),
        _ => None,
    }
}

// ---------------------------------------------------------------------------
// Merge order
// ---------------------------------------------------------------------------

/// A fragment's install list, empty when the key is absent.
pub open spec fn installs_of(n: NodeV) -> Seq<Seq<char>> {
    match n.yaml.install {
        Some(v) => v,
        None => Seq::empty(),
    }
}

pub open spec fn publishes_of(n: NodeV) -> Seq<PublishV> {
    match n.yaml.publish {
        Some(v) => v,
        None => Seq::empty(),
    }
}

pub open spec fn volumes_of(n: NodeV) -> Seq<VolumeV> {
    match n.yaml.volume {
        Some(v) => v,
        None => Seq::empty(),
    }
}

pub open spec fn envs_of(n: NodeV) -> Seq<(Seq<char>, Seq<char>)> {
    match n.yaml.env {
        Some(v) => v,
        None => Seq::empty(),
    }
}

/// Whether a fragment declares a base image.
pub open spec fn has_base(n: NodeV) -> bool {
    n.yaml.base is Some
}

/// First index at or after `from` of a fragment declaring a base, or the
/// length.
pub open spec fn find_base(mo: Seq<NodeV>, from: int) -> int
    decreases mo.len() - from,
{
    if from < 0 || from >= mo.len() {
        mo.len() as int
    } else if has_base(mo[from]) {
        from
    } else {
        find_base(mo, from + 1)
    }
}

proof fn lemma_find_base_at(mo: Seq<NodeV>, from: int, i: int)
    requires
        0 <= from <= i <= mo.len(),
        forall|t: int| from <= t < i ==> !has_base(#[trigger] mo[t]),
        i < mo.len() ==> has_base(mo[i]),
    ensures
        find_base(mo, from) == i,
    decreases i - from,
{
    if from < i {
        assert(!has_base(mo[from]));
        lemma_find_base_at(mo, from + 1, i);
    }
}

/// Membership test used by the install merge: a name not retained yet.
pub open spec fn not_seen(seen: Seq<Seq<char>>) -> spec_fn(Seq<char>) -> bool {
    |x: Seq<char>| !seen.contains(x)
}

/// One retained install batch: the contributing fragment's path and the
/// package names it is the first to list.
pub struct BatchV {
    pub path: Seq<char>,
    pub packages: Seq<Seq<char>>,
}

/// The retained install batches, in merge order: each fragment keeps the
/// names no earlier fragment retained, and contributes a batch when any
/// name is left.
pub open spec fn s_batches(mo: Seq<NodeV>, seen: Seq<Seq<char>>) -> Seq<BatchV>
    decreases mo.len(),
{
    if mo.len() == 0 {
        Seq::empty()
    } else {
        let keep = installs_of(mo[0]).filter(not_seen(seen));
        let rest = s_batches(mo.drop_first(), seen + keep);
        if keep.len() > 0 {
            seq![BatchV { path: mo[0].path, packages: keep }] + rest
        } else {
            rest
        }
    }
}

/// The (path, script) pairs of every fragment with a script, in merge order.
pub open spec fn s_scripts(mo: Seq<NodeV>) -> Seq<(Seq<char>, Seq<char>)>
    decreases mo.len(),
{
    if mo.len() == 0 {
        Seq::empty()
    } else {
        let rest = s_scripts(mo.drop_first());
        match mo[0].script {
            Some(s) => seq![(mo[0].path, s)] + rest,
            None => rest,
        }
    }
}

/// Every publish entry, in merge order, duplicates kept.
pub open spec fn s_publishes(mo: Seq<NodeV>) -> Seq<PublishV>
    decreases mo.len(),
{
    if mo.len() == 0 {
        Seq::empty()
    } else {
        publishes_of(mo[0]) + s_publishes(mo.drop_first())
    }
}

/// Every volume entry, in merge order, duplicates kept.
pub open spec fn s_volumes(mo: Seq<NodeV>) -> Seq<VolumeV>
    decreases mo.len(),
{
    if mo.len() == 0 {
        Seq::empty()
    } else {
        volumes_of(mo[0]) + s_volumes(mo.drop_first())
    }
}

/// Every environment entry, in merge order, duplicates kept.
pub open spec fn s_envs(mo: Seq<NodeV>) -> Seq<(Seq<char>, Seq<char>)>
    decreases mo.len(),
{
    if mo.len() == 0 {
        Seq::empty()
    } else {
        envs_of(mo[0]) + s_envs(mo.drop_first())
    }
}

// ---------------------------------------------------------------------------
// Synthesis
// ---------------------------------------------------------------------------

/// The instructions for the retained install batches: a provenance comment
/// and one install command per batch, in contributor order.
pub open spec fn s_install_cmds(pm: PackageManager, bs: Seq<BatchV>) -> Seq<CmdModel>
    decreases bs.len(),
{
    if bs.len() == 0 {
        Seq::empty()
    } else {
        s_install_cmds(pm, bs.drop_last()) + seq![
            CmdModel::COMMENT("Installs from: "@ + bs.last().path),
            s_install_model(pm, bs.last().packages),
        ]
    }
}

/// The instructions for the collected scripts: a provenance comment and one
/// heredoc-wrapped run per script, in merge order.
pub open spec fn s_script_cmds(ss: Seq<(Seq<char>, Seq<char>)>) -> Seq<CmdModel>
    decreases ss.len(),
{
    if ss.len() == 0 {
        Seq::empty()
    } else {
        s_script_cmds(ss.drop_last()) + seq![
            CmdModel::COMMENT("Exec script from: "@ + ss.last().0),
            CmdModel::RUN("<<EOR\n/bin/sh -c "@ + ss.last().1 + "\nEOR"@),
        ]
    }
}

/// The user-provisioning instructions mirroring the host identity.
pub open spec fn s_user_cmds(idv: IdentityV) -> Seq<CmdModel> {
    seq![
        CmdModel::COMMENT("Configure user"@),
        CmdModel::RUN("groupadd --gid "@ + dec_str(idv.gid as nat) + " "@ + idv.group_name),
        CmdModel::RUN(
            "useradd --gid "@ + dec_str(idv.gid as nat) + " --uid "@ + dec_str(idv.uid as nat)
                + " --home /home/"@ + idv.user_name + " "@ + idv.user_name,
        ),
        CmdModel::RUN("mkdir -p /home/"@ + idv.user_name),
        CmdModel::RUN(
            "chown "@ + dec_str(idv.uid as nat) + ":"@ + dec_str(idv.gid as nat) + " /home/"@
                + idv.user_name,
        ),
        CmdModel::USER(idv.uid as u16, Some(idv.gid as u16)),
    ]
}

/// Whether a directory's own name starts with a dot.
pub open spec fn hidden_dir(d: Seq<char>) -> bool {
    file_name(d).len() > 0 && file_name(d)[0] == '.'
}

/// The context-copy instructions: when the root fragment's directory is at
/// least two segments deep and some listed subdirectory is not hidden, a
/// comment and one copy per visible subdirectory into the image root.
pub open spec fn s_context_cmds(root_path: Seq<char>, dirs: Seq<Seq<char>>) -> Seq<CmdModel> {
    if path_depth(parent_dir(root_path)) >= 2 {
        let vis = dirs.filter(|d: Seq<char>| !hidden_dir(d));
        if vis.len() > 0 {
            seq![CmdModel::COMMENT("Adding context dirs"@)] + vis.map_values(
                |d: Seq<char>| CmdModel::COPY(d, seq!['/'] + file_name(d)),
            )
        } else {
            Seq::empty()
        }
    } else {
        Seq::empty()
    }
}

/// The full synthesized instruction sequence, in the fixed order: the base
/// image, the system upgrade, the dialect bootstrap, the retained install
/// batches, user provisioning, context copies, the scripts, and the
/// placeholder entrypoint.
pub open spec fn s_instructions(
    mo: Seq<NodeV>,
    pm: PackageManager,
    base: Seq<char>,
    idv: IdentityV,
    root_path: Seq<char>,
    dirs: Seq<Seq<char>>,
) -> Seq<CmdModel> {
    seq![
        CmdModel::FROM(base),
        CmdModel::COMMENT("Update outdated default dependencies"@),
        CmdModel::RUN(spec_upgrade(pm)),
    ] + spec_defaults(pm) + s_install_cmds(pm, s_batches(mo, Seq::empty())) + s_user_cmds(idv)
        + s_context_cmds(root_path, dirs) + s_script_cmds(s_scripts(mo)) + seq![
        CmdModel::COMMENT("Exec bash as entrypoint"@),
        CmdModel::RUN("/usr/bin/env bash"@),
    ]
}

/// First index in merge order of a fragment listing the name, or the length.
pub open spec fn first_lister(mo: Seq<NodeV>, name: Seq<char>) -> int
    decreases mo.len(),
{
    if mo.len() == 0 {
        0
    } else if installs_of(mo[0]).contains(name) {
        0
    } else {
        1 + first_lister(mo.drop_first(), name)
    }
}

proof fn lemma_first_lister(mo: Seq<NodeV>, name: Seq<char>)
    ensures
        0 <= first_lister(mo, name) <= mo.len(),
        first_lister(mo, name) < mo.len() ==> installs_of(mo[first_lister(mo, name)]).contains(
            name,
        ),
        forall|j: int|
            0 <= j < first_lister(mo, name) ==> !installs_of(#[trigger] mo[j]).contains(name),
    decreases mo.len(),
{
    if mo.len() > 0 && !installs_of(mo[0]).contains(name) {
        lemma_first_lister(mo.drop_first(), name);
        assert forall|j: int|
            0 <= j < first_lister(mo, name) implies !installs_of(#[trigger] mo[j]).contains(
            name,
        ) by {
            if j > 0 {
                assert(mo.drop_first()[j - 1] == mo[j]);
            }
        }
    }
}

proof fn lemma_contains_concat<A>(a: Seq<A>, b: Seq<A>, x: A)
    ensures
        (a + b).contains(x) <==> a.contains(x) || b.contains(x),
{
    if (a + b).contains(x) {
        let i = choose|i: int| 0 <= i < (a + b).len() && (a + b)[i] == x;
        if i < a.len() {
            assert(a[i] == x);
        } else {
            assert(b[i - a.len()] == x);
        }
    }
    if a.contains(x) {
        let i = choose|i: int| 0 <= i < a.len() && a[i] == x;
        assert((a + b)[i] == x);
    }
    if b.contains(x) {
        let i = choose|i: int| 0 <= i < b.len() && b[i] == x;
        assert((a + b)[a.len() + i] == x);
    }
}

proof fn lemma_filter_subset<A>(s: Seq<A>, pred: spec_fn(A) -> bool, x: A)
    requires
        s.filter(pred).contains(x),
    ensures
        s.contains(x),
        pred(x),
    decreases s.len(),
{
    reveal(Seq::filter);
    if s.len() == 0 {
    } else {
        let dl = s.drop_last();
        if pred(s.last()) {
            let f = s.filter(pred);
            assert(f == dl.filter(pred).push(s.last()));
            let i = choose|i: int| 0 <= i < f.len() && f[i] == x;
            if i == f.len() - 1 {
                assert(s[s.len() - 1] == x);
            } else {
                assert(dl.filter(pred)[i] == x);
                assert(dl.filter(pred).contains(x));
                lemma_filter_subset(dl, pred, x);
                let j = choose|j: int| 0 <= j < dl.len() && dl[j] == x;
                assert(s[j] == x);
            }
        } else {
            assert(s.filter(pred) == dl.filter(pred));
            lemma_filter_subset(dl, pred, x);
            let j = choose|j: int| 0 <= j < dl.len() && dl[j] == x;
            assert(s[j] == x);
        }
    }
}

proof fn lemma_batches_props(mo: Seq<NodeV>, seen: Seq<Seq<char>>)
    ensures
        ({
            let bs = s_batches(mo, seen);
            &&& forall|b: int, name: Seq<char>|
                0 <= b < bs.len() && (#[trigger] bs[b].packages.contains(name)) ==> {
                    &&& !seen.contains(name)
                    &&& first_lister(mo, name) < mo.len()
                    &&& bs[b].path == mo[first_lister(mo, name)].path
                }
            &&& forall|b1: int, b2: int, name: Seq<char>|
                0 <= b1 < b2 < bs.len() ==> !((#[trigger] bs[b1].packages.contains(name)) && (
                #[trigger] bs[b2].packages.contains(name)))
        }),
    decreases mo.len(),
{
    broadcast use vstd::seq_lib::group_filter_ensures;

    if mo.len() > 0 {
        let keep = installs_of(mo[0]).filter(not_seen(seen));
        let rest = s_batches(mo.drop_first(), seen + keep);
        let bs = s_batches(mo, seen);
        lemma_batches_props(mo.drop_first(), seen + keep);
        assert forall|name: Seq<char>| keep.contains(name) implies !seen.contains(name)
            && installs_of(mo[0]).contains(name) by {
            lemma_filter_subset(installs_of(mo[0]), not_seen(seen), name);
            assert(not_seen(seen)(name));
        }
        // A name kept by a later batch was not listed by this fragment.
        assert forall|b: int, name: Seq<char>|
            0 <= b < rest.len() && (#[trigger] rest[b].packages.contains(name)) implies {
            &&& !seen.contains(name)
            &&& !installs_of(mo[0]).contains(name)
            &&& first_lister(mo, name) == 1 + first_lister(mo.drop_first(), name)
        } by {
            lemma_contains_concat(seen, keep, name);
            assert(!(seen + keep).contains(name));
            if installs_of(mo[0]).contains(name) {
                assert(not_seen(seen)(name));
                assert(keep.contains(name));
            }
        }
        if keep.len() > 0 {
            assert(bs == seq![BatchV { path: mo[0].path, packages: keep }] + rest);
            assert forall|b: int, name: Seq<char>|
                0 <= b < bs.len() && (#[trigger] bs[b].packages.contains(name)) implies {
                &&& !seen.contains(name)
                &&& first_lister(mo, name) < mo.len()
                &&& bs[b].path == mo[first_lister(mo, name)].path
            } by {
                if b == 0 {
                    assert(bs[0].packages == keep);
                    assert(installs_of(mo[0]).contains(name));
                    assert(first_lister(mo, name) == 0);
                } else {
                    assert(bs[b] == rest[b - 1]);
                    let fl = first_lister(mo.drop_first(), name);
                    lemma_first_lister(mo.drop_first(), name);
                    assert(mo.drop_first()[fl] == mo[fl + 1]);
                }
            }
            assert forall|b1: int, b2: int, name: Seq<char>|
                0 <= b1 < b2 < bs.len() implies !((#[trigger] bs[b1].packages.contains(name)) && (
            #[trigger] bs[b2].packages.contains(name))) by {
                if b1 == 0 {
                    if bs[0].packages.contains(name) && bs[b2].packages.contains(name) {
                        assert(rest[b2 - 1].packages.contains(name));
                        lemma_contains_concat(seen, keep, name);
                        assert(!(seen + keep).contains(name));
                        assert(keep.contains(name));
                    }
                } else {
                    assert(bs[b1] == rest[b1 - 1]);
                    assert(bs[b2] == rest[b2 - 1]);
                }
            }
        } else {
            assert(bs == rest);
            assert forall|b: int, name: Seq<char>|
                0 <= b < bs.len() && (#[trigger] bs[b].packages.contains(name)) implies {
                &&& !seen.contains(name)
                &&& first_lister(mo, name) < mo.len()
                &&& bs[b].path == mo[first_lister(mo, name)].path
            } by {
                assert(rest[b].packages.contains(name));
                let fl = first_lister(mo.drop_first(), name);
                lemma_first_lister(mo.drop_first(), name);
                assert(mo.drop_first()[fl] == mo[fl + 1]);
            }
        }
    }
}

/// First-writer-wins de-duplication: across the retained install batches of
/// a merge order, every package name appears in at most one batch, and a
/// batch holding a name belongs to the earliest fragment in merge order that
/// lists that name.
pub proof fn lemma_install_dedup(mo: Seq<NodeV>)
    ensures
        ({
            let bs = s_batches(mo, Seq::empty());
            &&& forall|b1: int, b2: int, name: Seq<char>|
                0 <= b1 < b2 < bs.len() ==> !((#[trigger] bs[b1].packages.contains(name)) && (
                #[trigger] bs[b2].packages.contains(name)))
            &&& forall|b: int, name: Seq<char>|
                0 <= b < bs.len() && (#[trigger] bs[b].packages.contains(name)) ==> {
                    &&& first_lister(mo, name) < mo.len()
                    &&& bs[b].path == mo[first_lister(mo, name)].path
                    &&& installs_of(mo[first_lister(mo, name)]).contains(name)
                }
        }),
{
    lemma_batches_props(mo, Seq::empty());
    let bs = s_batches(mo, Seq::empty());
    assert forall|b: int, name: Seq<char>|
        0 <= b < bs.len() && (#[trigger] bs[b].packages.contains(name)) implies {
        &&& first_lister(mo, name) < mo.len()
        &&& bs[b].path == mo[first_lister(mo, name)].path
        &&& installs_of(mo[first_lister(mo, name)]).contains(name)
    } by {
        lemma_first_lister(mo, name);
    }
}

/// The values of the collected install batches.
pub open spec fn batch_views(bs: Seq<(String, Vec<String>)>) -> Seq<BatchV> {
    bs.map_values(|t: (String, Vec<String>)| BatchV { path: t.0@, packages: t.1.deep_view() })
}

impl Dockerfile {
    /// Builds the specification for a resolved fragment tree: the merge
    /// order is the root's flattened descendants followed by the root
    /// itself. Exactly one fragment must declare a base image with a known
    /// distribution token; installs merge first-writer-wins; scripts and
    /// runtime parameters accumulate in merge order; instructions follow
    /// the fixed synthesis order.
    #[verifier::rlimit(60)]
    pub fn from_mixin(root: &Mixin, identity: &HostIdentity, context_dirs: &Vec<String>) -> (r:
        Result<Dockerfile, ConversionError>)
        ensures
            ({
                let mo = nodes_view(root.children@).push(root@);
                let i1 = find_base(mo, 0);
                match r {
                    Ok(d) => {
                        &&& i1 < mo.len()
                        &&& find_base(mo, i1 + 1) == mo.len()
                        &&& (spec_dialect(mo[i1].yaml.base->0) matches Some(pm) && d.models()
                            == s_instructions(
                            mo,
                            pm,
                            mo[i1].yaml.base->0,
                            identity@,
                            root.path@,
                            context_dirs.deep_view(),
                        ))
                        &&& d.publish.deep_view() == s_publishes(mo)
                        &&& d.volumes.deep_view() == s_volumes(mo)
                        &&& d.env.deep_view() == s_envs(mo)
                    },
                    Err(e) => match e@ {
                        ConvErrV::NoBase => i1 == mo.len(),
                        ConvErrV::MultipleBases(a, b) => i1 < mo.len() && find_base(mo, i1 + 1)
                            < mo.len() && a == mo[i1].path && b == mo[find_base(mo, i1 + 1)].path,
                        ConvErrV::UnknownBase(t) => i1 < mo.len() && find_base(mo, i1 + 1)
                            == mo.len() && t == mo[i1].yaml.base->0 && spec_dialect(t) is None,
                    },
                }
            }),
    {
        let n = root.children.len();
        let ghost mo = nodes_view(root.children@).push(root@);
        proof {
            assert(mo.len() == n + 1);
        }
        // Base validation: find the first two base declarations, if any.
        let mut base_info: Option<(String, String)> = None;
        let ghost mut gi1: int = 0;
        let mut i: usize = 0;
        loop
            invariant_except_break
                0 <= i <= n,
                n == root.children@.len(),
                mo == nodes_view(root.children@).push(root@),
                mo.len() == n + 1,
                match base_info {
                    None => forall|j: int| 0 <= j < i ==> !has_base(#[trigger] mo[j]),
                    Some(pb) => {
                        &&& 0 <= gi1 < i
                        &&& has_base(mo[gi1])
                        &&& forall|j: int| 0 <= j < i && j != gi1 ==> !has_base(#[trigger] mo[j])
                        &&& pb.0@ == mo[gi1].path
                        &&& mo[gi1].yaml.base matches Some(b) && pb.1@ == b
                    },
                },
            ensures
                match base_info {
                    None => forall|j: int| 0 <= j < mo.len() ==> !has_base(#[trigger] mo[j]),
                    Some(pb) => {
                        &&& 0 <= gi1 < mo.len()
                        &&& has_base(mo[gi1])
                        &&& forall|j: int|
                            0 <= j < mo.len() && j != gi1 ==> !has_base(#[trigger] mo[j])
                        &&& pb.0@ == mo[gi1].path
                        &&& mo[gi1].yaml.base matches Some(b) && pb.1@ == b
                    },
                },
            decreases n - i,
        {
            let node: &Mixin = if i < n {
                &root.children[i]
            } else {
                root
            };
            proof {
                if i < n {
                    assert(mo[i as int] == nodes_view(root.children@)[i as int]);
                    assert(nodes_view(root.children@)[i as int] == root.children@[i as int]@);
                } else {
                    assert(mo[i as int] == root@);
                }
                assert(mo[i as int] == node@);
            }
            match &node.yaml.base {
                Some(bs) => {
                    match &base_info {
                        None => {
                            base_info = Some((node.path.clone(), bs.clone()));
                            proof {
                                gi1 = i as int;
                            }
                        },
                        Some(pb) => {
                            proof {
                                lemma_find_base_at(mo, 0, gi1);
                                lemma_find_base_at(mo, gi1 + 1, i as int);
                            }
                            let a = pb.0.clone();
                            return Err(ConversionError::MultipleBases { a, b: node.path.clone() });
                        },
                    }
                },
                None => {},
            }
            if i == n {
                break;
            }
            i += 1;
        }
        let base_text = match base_info {
            None => {
                proof {
                    lemma_find_base_at(mo, 0, mo.len() as int);
                }
                return Err(ConversionError::NoBase);
            },
            Some(pb) => pb.1,
        };
        proof {
            lemma_find_base_at(mo, 0, gi1);
            lemma_find_base_at(mo, gi1 + 1, mo.len() as int);
        }
        let pm = match PackageManager::from_str(base_text.as_str()) {
            Ok(pm) => pm,
            Err(e) => {
                return Err(e);
            },
        };
        // One scan over the merge order: retained install batches, scripts,
        // and runtime parameters.
        let mut d = Dockerfile::new();
        let mut batches: Vec<(String, Vec<String>)> = Vec::new();
        let mut scripts: Vec<(String, String)> = Vec::new();
        let mut seen: Vec<String> = Vec::new();
        let mut i: usize = 0;
        proof {
            assert(mo.skip(0) =~= mo);
            assert(batch_views(batches@) =~= Seq::<BatchV>::empty());
            assert(scripts.deep_view() =~= Seq::<(Seq<char>, Seq<char>)>::empty());
            assert(seen.deep_view() =~= Seq::<Seq<char>>::empty());
        }
        loop
            invariant_except_break
                0 <= i <= n,
                n == root.children@.len(),
                mo == nodes_view(root.children@).push(root@),
                mo.len() == n + 1,
                d.models() == Seq::<CmdModel>::empty(),
                s_publishes(mo) == d.publish.deep_view() + s_publishes(mo.skip(i as int)),
                s_volumes(mo) == d.volumes.deep_view() + s_volumes(mo.skip(i as int)),
                s_envs(mo) == d.env.deep_view() + s_envs(mo.skip(i as int)),
                s_batches(mo, Seq::empty()) == batch_views(batches@) + s_batches(
                    mo.skip(i as int),
                    seen.deep_view(),
                ),
                s_scripts(mo) == scripts.deep_view() + s_scripts(mo.skip(i as int)),
            ensures
                d.models() == Seq::<CmdModel>::empty(),
                s_publishes(mo) == d.publish.deep_view(),
                s_volumes(mo) == d.volumes.deep_view(),
                s_envs(mo) == d.env.deep_view(),
                s_batches(mo, Seq::empty()) == batch_views(batches@),
                s_scripts(mo) == scripts.deep_view(),
            decreases n - i,
        {
            let node: &Mixin = if i < n {
                &root.children[i]
            } else {
                root
            };
            proof {
                if i < n {
                    assert(mo[i as int] == nodes_view(root.children@)[i as int]);
                    assert(nodes_view(root.children@)[i as int] == root.children@[i as int]@);
                } else {
                    assert(mo[i as int] == root@);
                }
                assert(mo[i as int] == node@);
                assert(mo.skip(i as int)[0] == mo[i as int]);
                assert(mo.skip(i as int).drop_first() =~= mo.skip(i + 1));
            }
            // Runtime parameters: simple append.
            match &node.yaml.publish {
                Some(ps) => {
                    d.add_publishes(ps);
                },
                None => {},
            }
            proof {
                assert(s_publishes(mo.skip(i as int)) == publishes_of(mo[i as int]) + s_publishes(
                    mo.skip(i + 1),
                ));
                assert(s_publishes(mo) =~= d.publish.deep_view() + s_publishes(mo.skip(i + 1)));
            }
            match &node.yaml.volume {
                Some(vs) => {
                    d.add_volumes(vs);
                },
                None => {},
            }
            proof {
                assert(s_volumes(mo.skip(i as int)) == volumes_of(mo[i as int]) + s_volumes(
                    mo.skip(i + 1),
                ));
                assert(s_volumes(mo) =~= d.volumes.deep_view() + s_volumes(mo.skip(i + 1)));
            }
            match &node.yaml.env {
                Some(es) => {
                    d.add_envs(es);
                },
                None => {},
            }
            proof {
                assert(s_envs(mo.skip(i as int)) == envs_of(mo[i as int]) + s_envs(mo.skip(i + 1)));
                assert(s_envs(mo) =~= d.env.deep_view() + s_envs(mo.skip(i + 1)));
            }
            // Scripts, in merge order.
            match &node.script {
                Some(sc) => {
                    let ghost pres = scripts.deep_view();
                    scripts.push((node.path.clone(), sc.clone()));
                    proof {
                        assert(scripts.deep_view() =~= pres.push((mo[i as int].path, sc@)));
                    }
                },
                None => {},
            }
            proof {
                assert(s_scripts(mo) =~= scripts.deep_view() + s_scripts(mo.skip(i + 1)));
            }
            // Install merge: keep only names no earlier fragment retained.
            let ghost seenv = seen.deep_view();
            let mut keep: Vec<String> = Vec::new();
            match &node.yaml.install {
                Some(inst) => {
                    let m = inst.len();
                    let mut j: usize = 0;
                    proof {
                        reveal(Seq::filter);
                        assert(keep.deep_view() =~= inst.deep_view().take(0).filter(
                            not_seen(seenv),
                        ));
                    }
                    while j < m
                        invariant
                            0 <= j <= m,
                            m == inst@.len(),
                            seen.deep_view() == seenv,
                            keep.deep_view() == inst.deep_view().take(j as int).filter(
                                not_seen(seenv),
                            ),
                        decreases m - j,
                    {
                        let name = &inst[j];
                        let fresh = !vec_contains_str(&seen, name.as_str());
                        proof {
                            assert(inst.deep_view()[j as int] == inst@[j as int]@);
                            assert(fresh == not_seen(seenv)(inst.deep_view()[j as int]));
                        }
                        if fresh {
                            let ghost prek = keep.deep_view();
                            keep.push(name.clone());
                            proof {
                                assert(keep.deep_view() =~= prek.push(
                                    inst.deep_view()[j as int],
                                ));
                            }
                        }
                        proof {
                            reveal(Seq::filter);
                            let tk = inst.deep_view().take(j + 1);
                            assert(tk.drop_last() =~= inst.deep_view().take(j as int));
                            assert(tk.last() == inst.deep_view()[j as int]);
                            if fresh {
                                assert(tk.filter(not_seen(seenv)) =~= tk.drop_last().filter(
                                    not_seen(seenv),
                                ).push(tk.last()));
                            } else {
                                assert(tk.filter(not_seen(seenv)) =~= tk.drop_last().filter(
                                    not_seen(seenv),
                                ));
                            }
                        }
                        j += 1;
                    }
                    proof {
                        assert(inst.deep_view().take(m as int) =~= inst.deep_view());
                        assert(installs_of(mo[i as int]) == inst.deep_view());
                    }
                },
                None => {
                    proof {
                        reveal(Seq::filter);
                        assert(installs_of(mo[i as int]).len() == 0);
                        assert(installs_of(mo[i as int]).filter(not_seen(seenv))
                            =~= Seq::<Seq<char>>::empty());
                        assert(keep.deep_view() =~= Seq::<Seq<char>>::empty());
                    }
                },
            }
            let ghost keepv = keep.deep_view();
            proof {
                assert(keepv == installs_of(mo[i as int]).filter(not_seen(seenv)));
            }
            if keep.len() > 0 {
                let kc = keep.clone();
                proof {
                    assert(forall|x: int| 0 <= x < keep@.len() ==> kc@[x] == keep@[x]);
                    assert(kc.deep_view() =~= keepv);
                }
                let ghost preb = batch_views(batches@);
                batches.push((node.path.clone(), kc));
                proof {
                    assert(batch_views(batches@) =~= preb.push(
                        BatchV { path: mo[i as int].path, packages: keepv },
                    ));
                }
            }
            let mut kmove = keep;
            seen.append(&mut kmove);
            proof {
                assert(seen.deep_view() =~= seenv + keepv);
                assert(s_batches(mo.skip(i as int), seenv) == (if keepv.len() > 0 {
                    seq![BatchV { path: mo[i as int].path, packages: keepv }]
                } else {
                    Seq::<BatchV>::empty()
                }) + s_batches(mo.skip(i + 1), seenv + keepv));
                assert(s_batches(mo, Seq::empty()) =~= batch_views(batches@) + s_batches(
                    mo.skip(i + 1),
                    seen.deep_view(),
                ));
            }
            if i == n {
                proof {
                    assert(mo.skip(n + 1) =~= Seq::<NodeV>::empty());
                    assert(s_publishes(mo) =~= d.publish.deep_view());
                    assert(s_volumes(mo) =~= d.volumes.deep_view());
                    assert(s_envs(mo) =~= d.env.deep_view());
                    assert(s_batches(mo, Seq::empty()) =~= batch_views(batches@));
                    assert(s_scripts(mo) =~= scripts.deep_view());
                }
                break;
            }
            i += 1;
        }
        // Synthesis, in the fixed order.
        let ghost pmv = pm;
        let ghost basev = base_text@;
        let ghost idv = identity@;
        d.add(Command::FROM(base_text));
        d.add(Command::COMMENT("Update outdated default dependencies".to_owned()));
        d.add(Command::RUN(pm.upgrade().to_owned()));
        d.add_all(pm.defaults());
        let ghost head0 = seq![
            CmdModel::FROM(basev),
            CmdModel::COMMENT("Update outdated default dependencies"@),
            CmdModel::RUN(spec_upgrade(pmv)),
        ] + spec_defaults(pmv);
        proof {
            assert(d.models() =~= head0);
        }
        let ghost bviews = batch_views(batches@);
        let bn = batches.len();
        let mut k: usize = 0;
        proof {
            assert(bviews.take(0) =~= Seq::<BatchV>::empty());
        }
        while k < bn
            invariant
                0 <= k <= bn,
                bn == batches@.len(),
                bviews == batch_views(batches@),
                head0 == seq![
                    CmdModel::FROM(basev),
                    CmdModel::COMMENT("Update outdated default dependencies"@),
                    CmdModel::RUN(spec_upgrade(pmv)),
                ] + spec_defaults(pmv),
                pmv == pm,
                mo == nodes_view(root.children@).push(root@),
                d.models() == head0 + s_install_cmds(pmv, bviews.take(k as int)),
                d.publish.deep_view() == s_publishes(mo),
                d.volumes.deep_view() == s_volumes(mo),
                d.env.deep_view() == s_envs(mo),
            decreases bn - k,
        {
            let ghost pre = d.models();
            let mut cmt = "Installs from: ".to_owned();
            cmt.append(batches[k].0.as_str());
            d.add(Command::COMMENT(cmt));
            let ins = pm.install(&batches[k].1);
            d.add(ins);
            proof {
                assert(bviews[k as int] == batch_views(batches@)[k as int]);
                assert(bviews[k as int].path == batches@[k as int].0@);
                assert(bviews[k as int].packages == batches@[k as int].1.deep_view());
                assert(bviews.take(k + 1).drop_last() =~= bviews.take(k as int));
                assert(bviews.take(k + 1).last() == bviews[k as int]);
                assert(s_install_cmds(pmv, bviews.take(k + 1)) == s_install_cmds(
                    pmv,
                    bviews.take(k as int),
                ) + seq![
                    CmdModel::COMMENT("Installs from: "@ + bviews[k as int].path),
                    s_install_model(pmv, bviews[k as int].packages),
                ]);
                assert(d.models() =~= head0 + s_install_cmds(pmv, bviews.take(k + 1)));
            }
            k += 1;
        }
        proof {
            assert(bviews.take(bn as int) =~= bviews);
        }
        let ghost head1 = head0 + s_install_cmds(pmv, bviews);
        // User provisioning.
        d.add(Command::COMMENT("Configure user".to_owned()));
        let gid_s = u64_to_dec(identity.gid as u64);
        let uid_s = u64_to_dec(identity.uid as u64);
        let mut line = "groupadd --gid ".to_owned();
        line.append(gid_s.as_str());
        line.append(" ");
        line.append(identity.group_name.as_str());
        d.add(Command::RUN(line));
        let mut line = "useradd --gid ".to_owned();
        line.append(gid_s.as_str());
        line.append(" --uid ");
        line.append(uid_s.as_str());
        line.append(" --home /home/");
        line.append(identity.user_name.as_str());
        line.append(" ");
        line.append(identity.user_name.as_str());
        d.add(Command::RUN(line));
        let mut line = "mkdir -p /home/".to_owned();
        line.append(identity.user_name.as_str());
        d.add(Command::RUN(line));
        let mut line = "chown ".to_owned();
        line.append(uid_s.as_str());
        line.append(":");
        line.append(gid_s.as_str());
        line.append(" /home/");
        line.append(identity.user_name.as_str());
        d.add(Command::RUN(line));
        d.add(
            Command::USER(User { uid: identity.uid as u16, gid: Some(identity.gid as u16) }),
        );
        proof {
            reveal_strlit(":");
            reveal_strlit(" ");
            assert(":"@ =~= seq![':']);
            assert(d.models() =~= head1 + s_user_cmds(idv));
        }
        let ghost head2 = head1 + s_user_cmds(idv);
        // Context copies.
        let pd = parent_dir_str(root.path.as_str());
        let depth = path_depth_str(pd.as_str());
        if depth >= 2 {
            let mut vis: Vec<String> = Vec::new();
            let dn = context_dirs.len();
            let mut t: usize = 0;
            proof {
                reveal(Seq::filter);
                assert(vis.deep_view() =~= context_dirs.deep_view().take(0).filter(
                    |x: Seq<char>| !hidden_dir(x),
                ));
            }
            while t < dn
                invariant
                    0 <= t <= dn,
                    dn == context_dirs@.len(),
                    vis.deep_view() == context_dirs.deep_view().take(t as int).filter(
                        |x: Seq<char>| !hidden_dir(x),
                    ),
                decreases dn - t,
            {
                let dir = &context_dirs[t];
                let fname = file_name_str(dir.as_str());
                let hidden = fname.unicode_len() > 0 && fname.get_char(0) == '.';
                proof {
                    assert(context_dirs.deep_view()[t as int] == context_dirs@[t as int]@);
                    assert(hidden == hidden_dir(context_dirs.deep_view()[t as int]));
                }
                if !hidden {
                    let ghost prev = vis.deep_view();
                    let dc = dir.clone();
                    vis.push(dc);
                    proof {
                        assert(vis.deep_view() =~= prev.push(context_dirs.deep_view()[t as int]));
                    }
                }
                proof {
                    reveal(Seq::filter);
                    let tk = context_dirs.deep_view().take(t + 1);
                    assert(tk.drop_last() =~= context_dirs.deep_view().take(t as int));
                    assert(tk.last() == context_dirs.deep_view()[t as int]);
                    if !hidden {
                        assert(tk.filter(|x: Seq<char>| !hidden_dir(x)) =~= tk.drop_last().filter(
                            |x: Seq<char>| !hidden_dir(x),
                        ).push(tk.last()));
                    } else {
                        assert(tk.filter(|x: Seq<char>| !hidden_dir(x)) =~= tk.drop_last().filter(
                            |x: Seq<char>| !hidden_dir(x),
                        ));
                    }
                }
                t += 1;
            }
            proof {
                assert(context_dirs.deep_view().take(dn as int) =~= context_dirs.deep_view());
            }
            let ghost visv = vis.deep_view();
            if vis.len() > 0 {
                d.add(Command::COMMENT("Adding context dirs".to_owned()));
                let vn = vis.len();
                let mut k: usize = 0;
                proof {
                    assert(visv.take(0).map_values(
                        |x: Seq<char>| CmdModel::COPY(x, seq!['/'] + file_name(x)),
                    ) =~= Seq::<CmdModel>::empty());
                }
                while k < vn
                    invariant
                        0 <= k <= vn,
                        vn == vis@.len(),
                        visv == vis.deep_view(),
                        mo == nodes_view(root.children@).push(root@),
                        d.models() == head2 + seq![CmdModel::COMMENT("Adding context dirs"@)]
                            + visv.take(k as int).map_values(
                            |x: Seq<char>| CmdModel::COPY(x, seq!['/'] + file_name(x)),
                        ),
                        d.publish.deep_view() == s_publishes(mo),
                        d.volumes.deep_view() == s_volumes(mo),
                        d.env.deep_view() == s_envs(mo),
                    decreases vn - k,
                {
                    let ghost pre = d.models();
                    let fname = file_name_str(vis[k].as_str());
                    let mut dst = "/".to_owned();
                    dst.append(fname.as_str());
                    let src = vis[k].clone();
                    d.add(Command::COPY(src, dst));
                    proof {
                        reveal_strlit("/");
                        assert("/"@ =~= seq!['/']);
                        assert(visv[k as int] == vis@[k as int]@);
                        assert(visv.take(k + 1) =~= visv.take(k as int).push(visv[k as int]));
                        assert(visv.take(k + 1).map_values(
                            |x: Seq<char>| CmdModel::COPY(x, seq!['/'] + file_name(x)),
                        ) =~= visv.take(k as int).map_values(
                            |x: Seq<char>| CmdModel::COPY(x, seq!['/'] + file_name(x)),
                        ).push(CmdModel::COPY(visv[k as int], seq!['/'] + file_name(
                            visv[k as int],
                        ))));
                        assert(d.models() =~= head2 + seq![
                            CmdModel::COMMENT("Adding context dirs"@),
                        ] + visv.take(k + 1).map_values(
                            |x: Seq<char>| CmdModel::COPY(x, seq!['/'] + file_name(x)),
                        ));
                    }
                    k += 1;
                }
                proof {
                    assert(visv.take(vn as int) =~= visv);
                    assert(s_context_cmds(root.path@, context_dirs.deep_view()) == seq![
                        CmdModel::COMMENT("Adding context dirs"@),
                    ] + visv.map_values(
                        |x: Seq<char>| CmdModel::COPY(x, seq!['/'] + file_name(x)),
                    ));
                    assert(d.models() =~= head2 + s_context_cmds(
                        root.path@,
                        context_dirs.deep_view(),
                    ));
                }
            } else {
                proof {
                    assert(s_context_cmds(root.path@, context_dirs.deep_view())
                        =~= Seq::<CmdModel>::empty());
                    assert(d.models() =~= head2 + s_context_cmds(
                        root.path@,
                        context_dirs.deep_view(),
                    ));
                }
            }
        } else {
            proof {
                assert(s_context_cmds(root.path@, context_dirs.deep_view())
                    =~= Seq::<CmdModel>::empty());
                assert(d.models() =~= head2 + s_context_cmds(root.path@, context_dirs.deep_view()));
            }
        }
        let ghost head3 = head2 + s_context_cmds(root.path@, context_dirs.deep_view());
        // Scripts, each wrapped in a heredoc-style run.
        let ghost sviews = scripts.deep_view();
        let sn = scripts.len();
        let mut k: usize = 0;
        proof {
            assert(sviews.take(0) =~= Seq::<(Seq<char>, Seq<char>)>::empty());
        }
        while k < sn
            invariant
                0 <= k <= sn,
                sn == scripts@.len(),
                sviews == scripts.deep_view(),
                mo == nodes_view(root.children@).push(root@),
                d.models() == head3 + s_script_cmds(sviews.take(k as int)),
                d.publish.deep_view() == s_publishes(mo),
                d.volumes.deep_view() == s_volumes(mo),
                d.env.deep_view() == s_envs(mo),
            decreases sn - k,
        {
            let ghost pre = d.models();
            let mut cmt = "Exec script from: ".to_owned();
            cmt.append(scripts[k].0.as_str());
            d.add(Command::COMMENT(cmt));
            let mut run = "<<EOR\n/bin/sh -c ".to_owned();
            run.append(scripts[k].1.as_str());
            run.append("\nEOR");
            d.add(Command::RUN(run));
            proof {
                assert(sviews[k as int] == (scripts@[k as int].0@, scripts@[k as int].1@));
                assert(sviews.take(k + 1).drop_last() =~= sviews.take(k as int));
                assert(sviews.take(k + 1).last() == sviews[k as int]);
                assert(s_script_cmds(sviews.take(k + 1)) == s_script_cmds(sviews.take(k as int))
                    + seq![
                    CmdModel::COMMENT("Exec script from: "@ + sviews[k as int].0),
                    CmdModel::RUN("<<EOR\n/bin/sh -c "@ + sviews[k as int].1 + "\nEOR"@),
                ]);
                assert(d.models() =~= head3 + s_script_cmds(sviews.take(k + 1)));
            }
            k += 1;
        }
        proof {
            assert(sviews.take(sn as int) =~= sviews);
        }
        // Placeholder entrypoint.
        d.add(Command::COMMENT("Exec bash as entrypoint".to_owned()));
        d.add(Command::RUN("/usr/bin/env bash".to_owned()));
        proof {
            assert(d.models() =~= s_instructions(
                mo,
                pmv,
                basev,
                idv,
                root.path@,
                context_dirs.deep_view(),
            ));
        }
        Ok(d)
    }
}

} // verus!
