//! Build specifications: the ordered instruction sequence, its deterministic
//! canonical text, the content-addressed image tag derived from that text,
//! and the argument list forwarded to the container engine at run time.

use vstd::prelude::*;
use vstd::string::StrSliceExecFns;
use vstd::string::StringExecFns;
use vstd::string::StringSliceAdditionalSpecFns;

use crate::config::{spec_format_publish, spec_format_volume, Publish, PublishV, Volume, VolumeV};
use crate::strutil::{dec_str, u64_to_dec};

verus! {

// ---------------------------------------------------------------------------
// Instructions
// ---------------------------------------------------------------------------

/// The image user an instruction switches to.
#[derive(Debug, Clone, Copy, PartialEq, Eq, Structural)]
pub struct User {
    pub uid: u16,
    pub gid: Option<u16>,
}

/// One build instruction.
#[derive(Debug, PartialEq, Eq)]
#[allow(non_camel_case_types)]
pub enum Command {
    FROM(String),
    COMMENT(String),
    CMD(String),
    ENV(String, String),
    ARG(String, String),
    RUN(String),
    USER(User),
    COPY(String, String),
}

/// The mathematical value of one build instruction.
#[allow(non_camel_case_types)]
pub enum CmdModel {
    FROM(Seq<char>),
    COMMENT(Seq<char>),
    CMD(Seq<char>),
    ENV(Seq<char>, Seq<char>),
    ARG(Seq<char>, Seq<char>),
    RUN(Seq<char>),
    USER(u16, Option<u16>),
    COPY(Seq<char>, Seq<char>),
}

impl View for Command {
    type V = CmdModel;

    open spec fn view(&self) -> CmdModel {
        match self {
            Command::FROM(s) => CmdModel::FROM(s@),
            Command::COMMENT(s) => CmdModel::COMMENT(s@),
            Command::CMD(s) => CmdModel::CMD(s@),
            Command::ENV(k, v) => CmdModel::ENV(k@, v@),
            Command::ARG(k, v) => CmdModel::ARG(k@, v@),
            Command::RUN(s) => CmdModel::RUN(s@),
            Command::USER(u) => CmdModel::USER(u.uid, u.gid),
            Command::COPY(a, b) => CmdModel::COPY(a@, b@),
        }
    }
}

impl DeepView for Command {
    type V = CmdModel;

    open spec fn deep_view(&self) -> CmdModel {
        self.view()
    }
}

impl Command {
    /// An `ENV` instruction from a key and a value.
    pub fn env(a: &str, b: &str) -> (r: Command)
        ensures
            r@ == CmdModel::ENV(a@, b@),
    {
        Command::ENV(a.to_owned(), b.to_owned())
    }

    /// An `ARG` instruction from a key and a value.
    pub fn arg(a: &str, b: &str) -> (r: Command)
        ensures
            r@ == CmdModel::ARG(a@, b@),
    {
        Command::ARG(a.to_owned(), b.to_owned())
    }
}

/// The canonical one-line text of an instruction.
pub open spec fn cmd_text(c: CmdModel) -> Seq<char> {
    match c {
        CmdModel::FROM(s) => "FROM "@ + s,
        CmdModel::COMMENT(s) => "# "@ + s,
        CmdModel::CMD(s) => "CMD "@ + s,
        CmdModel::ENV(k, v) => "ENV "@ + k + "="@ + v,
        CmdModel::ARG(k, v) => "ARG "@ + k + "="@ + v,
        CmdModel::RUN(s) => "RUN "@ + s,
        CmdModel::USER(uid, gid) => match gid {
            Some(g) => "USER "@ + dec_str(uid as nat) + seq![':'] + dec_str(g as nat),
            None => "USER "@ + dec_str(uid as nat),
        },
        CmdModel::COPY(a, b) => "COPY "@ + a + " "@ + b,
    }
}

/// An instruction's contribution to the canonical text: a blank line before
/// every comment, the line itself, and a newline.
pub open spec fn line_block(c: CmdModel) -> Seq<char> {
    let lead = if c matches CmdModel::COMMENT(_) {
        "\n"@
    } else {
        Seq::<char>::empty()
    };
    lead + cmd_text(c) + "\n"@
}

/// The canonical text of an instruction sequence.
pub open spec fn spec_text(cmds: Seq<CmdModel>) -> Seq<char>
    decreases cmds.len(),
{
    if cmds.len() == 0 {
        Seq::empty()
    } else {
        spec_text(cmds.drop_last()) + line_block(cmds.last())
    }
}

// ---------------------------------------------------------------------------
// Hashing (trusted edge)
// ---------------------------------------------------------------------------

pub uninterp spec fn sha256_of(data: Seq<u8>) -> Seq<u8>;

/// Relies on `sha2::Sha256::digest`: the SHA-256 digest of the input bytes, a
/// function of those bytes alone, 32 bytes long.
#[verifier::external_body]
fn sha256_str(text: &str) -> (r: Vec<u8>)
    ensures
        r@ == sha256_of(text.spec_bytes()),
        r@.len() == 32,
{
    let digest = <sha2::Sha256 as sha2::Digest>::digest(text.as_bytes());
    digest.to_vec()
}

pub uninterp spec fn hex_lower_of(data: Seq<u8>) -> Seq<char>;

/// Relies on `hex::encode`: the lower-case hexadecimal rendering of the input
/// bytes, a function of those bytes alone, two characters per byte.
#[verifier::external_body]
fn hex_encode(data: &Vec<u8>) -> (r: String)
    ensures
        r@ == hex_lower_of(data@),
        r@.len() == 2 * data@.len(),
{
    hex::encode(data)
}

/// The content hash of a canonical text.
pub open spec fn spec_hash(cmds: Seq<CmdModel>) -> Seq<char> {
    hex_lower_of(sha256_of(vstd::utf8::encode_utf8(spec_text(cmds))))
}

/// The image tag: a fixed namespace prefix in front of the content hash.
pub open spec fn spec_tag(cmds: Seq<CmdModel>) -> Seq<char> {
    "mini-cross2-"@ + spec_hash(cmds)
}

// ---------------------------------------------------------------------------
// Build specification
// ---------------------------------------------------------------------------

/// An ordered build-instruction sequence together with the runtime parameters
/// (published ports, volumes, environment) forwarded to the engine at run
/// time. The runtime parameters deliberately play no part in the canonical
/// text or the tag.
#[derive(Debug)]
pub struct Dockerfile {
    /// The build instructions, in emission order.
    pub entries: Vec<Command>,
    /// Ports forwarded to the run invocation.
    pub publish: Vec<Publish>,
    /// Volumes forwarded to the run invocation.
    pub volumes: Vec<Volume>,
    /// Environment entries forwarded to the run invocation.
    pub env: Vec<(String, String)>,
}

impl Dockerfile {
    /// The mathematical value of the instruction sequence.
    pub open spec fn models(&self) -> Seq<CmdModel> {
        self.entries.deep_view()
    }

    /// An empty build specification.
    pub fn new() -> (r: Dockerfile)
        ensures
            r.models() == Seq::<CmdModel>::empty(),
            r.publish.deep_view() == Seq::<PublishV>::empty(),
            r.volumes.deep_view() == Seq::<VolumeV>::empty(),
            r.env.deep_view() == Seq::<(Seq<char>, Seq<char>)>::empty(),
    {
        let r = Dockerfile {
            entries: Vec::new(),
            publish: Vec::new(),
            volumes: Vec::new(),
            env: Vec::new(),
        };
        proof {
            assert(r.models() =~= Seq::<CmdModel>::empty());
            assert(r.publish.deep_view() =~= Seq::<PublishV>::empty());
            assert(r.volumes.deep_view() =~= Seq::<VolumeV>::empty());
            assert(r.env.deep_view() =~= Seq::<(Seq<char>, Seq<char>)>::empty());
        }
        r
    }

    /// Appends one instruction.
    pub fn add(&mut self, command: Command)
        ensures
            final(self).models() == old(self).models().push(command@),
            final(self).publish == old(self).publish,
            final(self).volumes == old(self).volumes,
            final(self).env == old(self).env,
    {
        self.entries.push(command);
        proof {
            assert(self.models() =~= old(self).models().push(self.entries@.last()@));
        }
    }

    /// Appends a sequence of instructions in order.
    pub fn add_all(&mut self, commands: Vec<Command>)
        ensures
            final(self).models() == old(self).models() + commands.deep_view(),
            final(self).publish == old(self).publish,
            final(self).volumes == old(self).volumes,
            final(self).env == old(self).env,
    {
        let n = commands.len();
        let mut commands = commands;
        let mut i: usize = 0;
        while i < n
            invariant
                0 <= i <= n,
                n == commands@.len(),
                self.models() == old(self).models() + commands.deep_view().take(i as int),
                self.publish == old(self).publish,
                self.volumes == old(self).volumes,
                self.env == old(self).env,
            decreases n - i,
        {
            let ghost pre = self.models();
            let c = commands[i].duplicate();
            self.add(c);
            proof {
                assert(commands.deep_view().take(i + 1) =~= commands.deep_view().take(i as int)
                    .push(commands.deep_view()[i as int]));
                assert(self.models() =~= old(self).models() + commands.deep_view().take(i + 1));
            }
            i += 1;
        }
        proof {
            assert(commands.deep_view().take(n as int) =~= commands.deep_view());
        }
    }

    /// Appends forwarded ports.
    pub fn add_publishes(&mut self, args: &Vec<Publish>)
        ensures
            final(self).publish.deep_view() == old(self).publish.deep_view() + args.deep_view(),
            final(self).entries == old(self).entries,
            final(self).volumes == old(self).volumes,
            final(self).env == old(self).env,
    {
        let n = args.len();
        let mut i: usize = 0;
        while i < n
            invariant
                0 <= i <= n,
                n == args@.len(),
                self.publish.deep_view() == old(self).publish.deep_view() + args.deep_view().take(
                    i as int,
                ),
                self.entries == old(self).entries,
                self.volumes == old(self).volumes,
                self.env == old(self).env,
            decreases n - i,
        {
            let ghost pre = self.publish.deep_view();
            self.publish.push(args[i].clone());
            proof {
                assert(self.publish.deep_view() =~= pre.push(args@[i as int]@));
                assert(args.deep_view().take(i + 1) =~= args.deep_view().take(i as int).push(
                    args@[i as int]@,
                ));
                assert(self.publish.deep_view() =~= old(self).publish.deep_view()
                    + args.deep_view().take(i + 1));
            }
            i += 1;
        }
        proof {
            assert(args.deep_view().take(n as int) =~= args.deep_view());
        }
    }

    /// Appends forwarded volumes.
    pub fn add_volumes(&mut self, args: &Vec<Volume>)
        ensures
            final(self).volumes.deep_view() == old(self).volumes.deep_view() + args.deep_view(),
            final(self).entries == old(self).entries,
            final(self).publish == old(self).publish,
            final(self).env == old(self).env,
    {
        let n = args.len();
        let mut i: usize = 0;
        while i < n
            invariant
                0 <= i <= n,
                n == args@.len(),
                self.volumes.deep_view() == old(self).volumes.deep_view() + args.deep_view().take(
                    i as int,
                ),
                self.entries == old(self).entries,
                self.publish == old(self).publish,
                self.env == old(self).env,
            decreases n - i,
        {
            let ghost pre = self.volumes.deep_view();
            let v = args[i].clone();
            proof {
                assert(v@ == args@[i as int]@);
            }
            self.volumes.push(v);
            proof {
                assert(self.volumes.deep_view() =~= pre.push(args@[i as int]@));
                assert(args.deep_view().take(i + 1) =~= args.deep_view().take(i as int).push(
                    args@[i as int]@,
                ));
                assert(self.volumes.deep_view() =~= old(self).volumes.deep_view()
                    + args.deep_view().take(i + 1));
            }
            i += 1;
        }
        proof {
            assert(args.deep_view().take(n as int) =~= args.deep_view());
        }
    }

    /// Appends forwarded environment entries.
    pub fn add_envs(&mut self, kvs: &Vec<(String, String)>)
        ensures
            final(self).env.deep_view() == old(self).env.deep_view() + kvs.deep_view(),
            final(self).entries == old(self).entries,
            final(self).publish == old(self).publish,
            final(self).volumes == old(self).volumes,
    {
        let n = kvs.len();
        let mut i: usize = 0;
        while i < n
            invariant
                0 <= i <= n,
                n == kvs@.len(),
                self.env.deep_view() == old(self).env.deep_view() + kvs.deep_view().take(i as int),
                self.entries == old(self).entries,
                self.publish == old(self).publish,
                self.volumes == old(self).volumes,
            decreases n - i,
        {
            let ghost pre = self.env.deep_view();
            let k = kvs[i].0.clone();
            let v = kvs[i].1.clone();
            self.env.push((k, v));
            proof {
                assert(self.env.deep_view() =~= pre.push(kvs.deep_view()[i as int]));
                assert(kvs.deep_view().take(i + 1) =~= kvs.deep_view().take(i as int).push(
                    kvs.deep_view()[i as int],
                ));
            }
            i += 1;
        }
        proof {
            assert(kvs.deep_view().take(n as int) =~= kvs.deep_view());
        }
    }

    /// Appends one forwarded environment entry.
    pub fn add_env(&mut self, k: &str, v: &str)
        ensures
            final(self).env.deep_view() == old(self).env.deep_view().push((k@, v@)),
            final(self).entries == old(self).entries,
            final(self).publish == old(self).publish,
            final(self).volumes == old(self).volumes,
    {
        self.env.push((k.to_owned(), v.to_owned()));
        proof {
            assert(self.env.deep_view() =~= old(self).env.deep_view().push((k@, v@)));
        }
    }

    /// Appends the canonical text of this specification to `out`: one
    /// instruction per line, a blank line before every comment line.
    pub fn write_to(&self, out: &mut String)
        ensures
            final(out)@ == old(out)@ + spec_text(self.models()),
    {
        let n = self.entries.len();
        let mut i: usize = 0;
        while i < n
            invariant
                0 <= i <= n,
                n == self.entries@.len(),
                out@ == old(out)@ + spec_text(self.models().take(i as int)),
            decreases n - i,
        {
            let ghost pre = self.models().take(i as int);
            let is_comment = match &self.entries[i] {
                Command::COMMENT(_) => true,
                _ => false,
            };
            if is_comment {
                out.append("\n");
            }
            append_cmd_text(out, &self.entries[i]);
            out.append("\n");
            proof {
                let c = self.models()[i as int];
                assert(self.models().take(i + 1) =~= pre.push(c));
                assert(self.models().take(i + 1).drop_last() =~= pre);
                assert(out@ =~= old(out)@ + spec_text(self.models().take(i + 1)));
            }
            i += 1;
        }
        proof {
            assert(self.models().take(n as int) =~= self.models());
        }
    }

    /// The canonical text as a fresh string.
    pub fn to_text(&self) -> (r: String)
        ensures
            r@ == spec_text(self.models()),
    {
        let mut out = String::new();
        self.write_to(&mut out);
        out
    }

    /// The lower-case hexadecimal content hash of the canonical text.
    pub fn hash(&self) -> (r: String)
        ensures
            r@ == spec_hash(self.models()),
    {
        let text = self.to_text();
        let digest = sha256_str(text.as_str());
        hex_encode(&digest)
    }

    /// The image tag derived from the content hash.
    pub fn tag(&self) -> (r: String)
        ensures
            r@ == spec_tag(self.models()),
    {
        let mut t = String::new();
        t.append("mini-cross2-");
        let h = self.hash();
        t.append(h.as_str());
        t
    }
}

impl Command {
    /// A copy of an instruction, equal to it at the model level.
    pub fn duplicate(&self) -> (r: Command)
        ensures
            r@ == self@,
    {
        match self {
            Command::FROM(s) => Command::FROM(s.clone()),
            Command::COMMENT(s) => Command::COMMENT(s.clone()),
            Command::CMD(s) => Command::CMD(s.clone()),
            Command::ENV(k, v) => Command::ENV(k.clone(), v.clone()),
            Command::ARG(k, v) => Command::ARG(k.clone(), v.clone()),
            Command::USER(u) => Command::USER(User { uid: u.uid, gid: u.gid }),
            Command::RUN(s) => Command::RUN(s.clone()),
            Command::COPY(a, b) => Command::COPY(a.clone(), b.clone()),
        }
    }
}

/// Appends an instruction's canonical one-line text.
fn append_cmd_text(out: &mut String, c: &Command)
    ensures
        final(out)@ == old(out)@ + cmd_text(c@),
{
    proof {
        reveal_strlit(":");
    }
    match c {
        Command::FROM(s) => {
            out.append("FROM ");
            out.append(s.as_str());
            proof {
                assert(out@ =~= old(out)@ + cmd_text(c@));
            }
        },
        Command::COMMENT(s) => {
            out.append("# ");
            out.append(s.as_str());
            proof {
                assert(out@ =~= old(out)@ + cmd_text(c@));
            }
        },
        Command::CMD(s) => {
            out.append("CMD ");
            out.append(s.as_str());
            proof {
                assert(out@ =~= old(out)@ + cmd_text(c@));
            }
        },
        Command::ENV(k, v) => {
            out.append("ENV ");
            out.append(k.as_str());
            out.append("=");
            out.append(v.as_str());
            proof {
                assert(out@ =~= old(out)@ + cmd_text(c@));
            }
        },
        Command::ARG(k, v) => {
            out.append("ARG ");
            out.append(k.as_str());
            out.append("=");
            out.append(v.as_str());
            proof {
                assert(out@ =~= old(out)@ + cmd_text(c@));
            }
        },
        Command::RUN(s) => {
            out.append("RUN ");
            out.append(s.as_str());
            proof {
                assert(out@ =~= old(out)@ + cmd_text(c@));
            }
        },
        Command::USER(u) => {
            out.append("USER ");
            let uid = u64_to_dec(u.uid as u64);
            out.append(uid.as_str());
            match u.gid {
                Some(g) => {
                    out.append(":");
                    let gid = u64_to_dec(g as u64);
                    out.append(gid.as_str());
                },
                None => {},
            }
            proof {
                assert(":"@ =~= seq![':']);
                assert(out@ =~= old(out)@ + cmd_text(c@));
            }
        },
        Command::COPY(a, b) => {
            out.append("COPY ");
            out.append(a.as_str());
            out.append(" ");
            out.append(b.as_str());
            proof {
                assert(out@ =~= old(out)@ + cmd_text(c@));
            }
        },
    }
}

/// Repeated `flag value` pairs, one pair per value.
pub open spec fn pair_flags(flag: Seq<char>, vals: Seq<Seq<char>>) -> Seq<Seq<char>>
    decreases vals.len(),
{
    if vals.len() == 0 {
        Seq::empty()
    } else {
        pair_flags(flag, vals.drop_last()) + seq![flag, vals.last()]
    }
}

/// The argument list handed to the engine's run command: the working
/// directory mounted at its own path and selected, interactive I/O when asked
/// for, the forwarded display, every publish, volume, and environment entry
/// as repeated paired flags, then the tag and the trailing user command.
pub open spec fn spec_run_args(
    publish: Seq<PublishV>,
    volumes: Seq<VolumeV>,
    envs: Seq<(Seq<char>, Seq<char>)>,
    cmds: Seq<CmdModel>,
    cmd: Seq<Seq<char>>,
    stdio: bool,
    workdir: Seq<char>,
    display: Option<Seq<char>>,
) -> Seq<Seq<char>> {
    seq!["run"@, "--rm"@, "-v"@, workdir + seq![':'] + workdir, "-w"@, workdir] + (if stdio {
        seq!["-it"@]
    } else {
        Seq::empty()
    }) + (match display {
        Some(d) => seq!["-e"@, "DISPLAY="@ + d, "-v"@, "/tmp/.X11-unix:/tmp/.X11-unix"@],
        None => Seq::empty(),
    }) + pair_flags("-p"@, publish.map_values(|p: PublishV| spec_format_publish(p))) + pair_flags(
        "-v"@,
        volumes.map_values(|v: VolumeV| spec_format_volume(v)),
    ) + pair_flags("-e"@, envs.map_values(|e: (Seq<char>, Seq<char>)| e.0 + "="@ + e.1)) + seq![
        spec_tag(cmds),
    ] + cmd
}

impl Dockerfile {
    /// The run-command argument list for this specification.
    pub fn run_args(
        &self,
        cmd: &Vec<String>,
        stdio_enable: bool,
        workdir: &str,
        display: Option<&str>,
    ) -> (r: Vec<String>)
        ensures
            r.deep_view() == spec_run_args(
                self.publish.deep_view(),
                self.volumes.deep_view(),
                self.env.deep_view(),
                self.models(),
                cmd.deep_view(),
                stdio_enable,
                workdir@,
                match display {
                    Some(d) => Some(d@),
                    None => None,
                },
            ),
    {
        proof {
            reveal_strlit(":");
            assert(":"@ =~= seq![':']);
        }
        let mut r: Vec<String> = Vec::new();
        r.push("run".to_owned());
        r.push("--rm".to_owned());
        r.push("-v".to_owned());
        let mut mount = workdir.to_owned();
        mount.append(":");
        mount.append(workdir);
        r.push(mount);
        r.push("-w".to_owned());
        r.push(workdir.to_owned());
        if stdio_enable {
            r.push("-it".to_owned());
        }
        match display {
            Some(d) => {
                r.push("-e".to_owned());
                let mut e = "DISPLAY=".to_owned();
                e.append(d);
                r.push(e);
                r.push("-v".to_owned());
                r.push("/tmp/.X11-unix:/tmp/.X11-unix".to_owned());
            },
            None => {},
        }
        let ghost head0 = seq!["run"@, "--rm"@, "-v"@, workdir@ + seq![':'] + workdir@, "-w"@, workdir@]
            + (if stdio_enable {
            seq!["-it"@]
        } else {
            Seq::<Seq<char>>::empty()
        }) + (match display {
            Some(d) => seq!["-e"@, "DISPLAY="@ + d@, "-v"@, "/tmp/.X11-unix:/tmp/.X11-unix"@],
            None => Seq::<Seq<char>>::empty(),
        });
        proof {
            assert(r.deep_view() =~~= head0);
        }
        let ghost pubs = self.publish.deep_view().map_values(
            |p: PublishV| spec_format_publish(p),
        );
        let n = self.publish.len();
        let mut i: usize = 0;
        while i < n
            invariant
                0 <= i <= n,
                n == self.publish@.len(),
                pubs == self.publish.deep_view().map_values(
                    |p: PublishV| spec_format_publish(p),
                ),
                r.deep_view() == head0 + pair_flags("-p"@, pubs.take(i as int)),
            decreases n - i,
        {
            let ghost pre = r.deep_view();
            r.push("-p".to_owned());
            let t = self.publish[i].to_text();
            r.push(t);
            proof {
                assert(pubs.take(i + 1).drop_last() =~= pubs.take(i as int));
                assert(pubs[i as int] == spec_format_publish(self.publish@[i as int]@));
                assert(r.deep_view() =~~= pre + seq!["-p"@, pubs[i as int]]);
                assert(r.deep_view() =~~= head0 + pair_flags("-p"@, pubs.take(i + 1)));
            }
            i += 1;
        }
        let ghost head1 = head0 + pair_flags("-p"@, pubs);
        proof {
            assert(pubs.take(n as int) =~= pubs);
        }
        let ghost vols = self.volumes.deep_view().map_values(|v: VolumeV| spec_format_volume(v));
        let m = self.volumes.len();
        let mut i: usize = 0;
        while i < m
            invariant
                0 <= i <= m,
                m == self.volumes@.len(),
                vols == self.volumes.deep_view().map_values(|v: VolumeV| spec_format_volume(v)),
                head1 == head0 + pair_flags("-p"@, pubs),
                r.deep_view() == head1 + pair_flags("-v"@, vols.take(i as int)),
            decreases m - i,
        {
            let ghost pre = r.deep_view();
            r.push("-v".to_owned());
            let t = self.volumes[i].to_text();
            r.push(t);
            proof {
                assert(vols.take(i + 1).drop_last() =~= vols.take(i as int));
                assert(vols[i as int] == spec_format_volume(self.volumes@[i as int]@));
                assert(r.deep_view() =~~= pre + seq!["-v"@, vols[i as int]]);
                assert(r.deep_view() =~~= head1 + pair_flags("-v"@, vols.take(i + 1)));
            }
            i += 1;
        }
        let ghost head2 = head1 + pair_flags("-v"@, vols);
        proof {
            assert(vols.take(m as int) =~= vols);
        }
        let ghost envs = self.env.deep_view().map_values(
            |e: (Seq<char>, Seq<char>)| e.0 + "="@ + e.1,
        );
        let k = self.env.len();
        let mut i: usize = 0;
        while i < k
            invariant
                0 <= i <= k,
                k == self.env@.len(),
                envs == self.env.deep_view().map_values(
                    |e: (Seq<char>, Seq<char>)| e.0 + "="@ + e.1,
                ),
                head2 == head0 + pair_flags("-p"@, pubs) + pair_flags("-v"@, vols),
                r.deep_view() == head2 + pair_flags("-e"@, envs.take(i as int)),
            decreases k - i,
        {
            let ghost pre = r.deep_view();
            r.push("-e".to_owned());
            let mut e = self.env[i].0.clone();
            e.append("=");
            e.append(self.env[i].1.as_str());
            r.push(e);
            proof {
                assert(envs.take(i + 1).drop_last() =~= envs.take(i as int));
                assert(self.env.deep_view()[i as int] == (
                    self.env@[i as int].0@,
                    self.env@[i as int].1@,
                ));
                assert(envs[i as int] == self.env@[i as int].0@ + "="@ + self.env@[i as int].1@);
                assert(r.deep_view() =~~= pre + seq!["-e"@, envs[i as int]]);
                assert(r.deep_view() =~~= head2 + pair_flags("-e"@, envs.take(i + 1)));
            }
            i += 1;
        }
        proof {
            assert(envs.take(k as int) =~= envs);
        }
        let tag = self.tag();
        r.push(tag);
        let c = cmd.len();
        let ghost head3 = head2 + pair_flags("-e"@, envs) + seq![spec_tag(self.models())];
        proof {
            assert(r.deep_view() =~~= head3);
        }
        let mut i: usize = 0;
        while i < c
            invariant
                0 <= i <= c,
                c == cmd@.len(),
                head3 == head2 + pair_flags("-e"@, envs) + seq![spec_tag(self.models())],
                r.deep_view() == head3 + cmd.deep_view().take(i as int),
            decreases c - i,
        {
            let ghost pre = r.deep_view();
            let t = cmd[i].clone();
            r.push(t);
            proof {
                assert(cmd.deep_view().take(i + 1) =~= cmd.deep_view().take(i as int).push(
                    cmd.deep_view()[i as int],
                ));
                assert(r.deep_view() =~~= pre.push(cmd.deep_view()[i as int]));
            }
            i += 1;
        }
        proof {
            assert(cmd.deep_view().take(c as int) =~= cmd.deep_view());
            assert(r.deep_view() =~~= spec_run_args(
                self.publish.deep_view(),
                self.volumes.deep_view(),
                self.env.deep_view(),
                self.models(),
                cmd.deep_view(),
                stdio_enable,
                workdir@,
                match display {
                    Some(d) => Some(d@),
                    None => None,
                },
            ));
        }
        r
    }
}

/// The canonical text, the content hash, and the tag depend on the
/// instruction sequence alone: two specifications with the same instructions
/// serialize identically and carry the same tag, whatever runtime parameters
/// either holds, and serializing one specification twice yields the same
/// text and tag both times.
pub proof fn lemma_tag_from_instructions_only(a: Dockerfile, b: Dockerfile)
    requires
        a.entries.deep_view() == b.entries.deep_view(),
    ensures
        spec_text(a.models()) == spec_text(b.models()),
        spec_hash(a.models()) == spec_hash(b.models()),
        spec_tag(a.models()) == spec_tag(b.models()),
{
}

} // verus!
