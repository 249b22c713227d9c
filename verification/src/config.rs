//! Runtime-parameter values: published ports, bind-mounted volumes, and the
//! user-level configuration that forwards them to a build specification.

use vstd::prelude::*;
use vstd::string::StrSliceExecFns;
use vstd::string::StringExecFns;

use crate::strutil::{
    dec_str, dec_val, is_u16_numeral, join_char, lemma_dec_round_trip, lemma_dec_str_digits,
    lemma_digits_free_of, lemma_join_free_of, lemma_split_join, lemma_split_no_sep,
    lemma_split_prefix, sign_stripped, split_char,
};
use crate::strutil::{join_strs, parse_u16, split_str, str_eq, u64_to_dec};

verus! {

// ---------------------------------------------------------------------------
// User configuration
// ---------------------------------------------------------------------------

/// Runtime parameters gathered from user-level configuration files, appended
/// to a build specification before running.
#[derive(Debug)]
pub struct UserConfig {
    pub publish: Vec<Publish>,
    pub volume: Vec<Volume>,
    pub env: Vec<(String, String)>,
}

impl Default for UserConfig {
    /// A configuration with nothing gathered.
    fn default() -> (r: UserConfig)
        ensures
            r.publish.deep_view() == Seq::<PublishV>::empty(),
            r.volume.deep_view() == Seq::<VolumeV>::empty(),
            r.env.deep_view() == Seq::<(Seq<char>, Seq<char>)>::empty(),
    {
        let r = UserConfig { publish: Vec::new(), volume: Vec::new(), env: Vec::new() };
        proof {
            assert(r.publish.deep_view() =~= Seq::<PublishV>::empty());
            assert(r.volume.deep_view() =~= Seq::<VolumeV>::empty());
            assert(r.env.deep_view() =~= Seq::<(Seq<char>, Seq<char>)>::empty());
        }
        r
    }
}

impl UserConfig {
    /// Appends every gathered publish, volume, and environment entry to the
    /// specification's runtime parameters; the instructions stay untouched.
    pub fn append_docker(&self, dockerfile: &mut crate::docker::Dockerfile)
        ensures
            final(dockerfile).entries == old(dockerfile).entries,
            final(dockerfile).publish.deep_view() == old(dockerfile).publish.deep_view()
                + self.publish.deep_view(),
            final(dockerfile).volumes.deep_view() == old(dockerfile).volumes.deep_view()
                + self.volume.deep_view(),
            final(dockerfile).env.deep_view() == old(dockerfile).env.deep_view()
                + self.env.deep_view(),
    {
        dockerfile.add_publishes(&self.publish);
        dockerfile.add_volumes(&self.volume);
        let n = self.env.len();
        let mut i: usize = 0;
        while i < n
            invariant
                0 <= i <= n,
                n == self.env@.len(),
                dockerfile.entries == old(dockerfile).entries,
                dockerfile.publish.deep_view() == old(dockerfile).publish.deep_view()
                    + self.publish.deep_view(),
                dockerfile.volumes.deep_view() == old(dockerfile).volumes.deep_view()
                    + self.volume.deep_view(),
                dockerfile.env.deep_view() == old(dockerfile).env.deep_view()
                    + self.env.deep_view().take(i as int),
            decreases n - i,
        {
            dockerfile.add_env(self.env[i].0.as_str(), self.env[i].1.as_str());
            proof {
                assert(self.env.deep_view()[i as int] == (
                    self.env@[i as int].0@,
                    self.env@[i as int].1@,
                ));
                assert(self.env.deep_view().take(i + 1) =~= self.env.deep_view().take(
                    i as int,
                ).push(self.env.deep_view()[i as int]));
                assert(dockerfile.env.deep_view() =~= old(dockerfile).env.deep_view()
                    + self.env.deep_view().take(i + 1));
            }
            i += 1;
        }
        proof {
            assert(self.env.deep_view().take(n as int) =~= self.env.deep_view());
        }
    }
}

// ---------------------------------------------------------------------------
// Publish
// ---------------------------------------------------------------------------

/// Failure of reading a publish entry from text.
#[derive(Debug, Clone, Copy, PartialEq, Eq, Structural)]
pub enum ParsePublishError {
    /// A port field is not a decimal number that fits in sixteen bits.
    IntParseError,
    /// The text does not have the shape `[host_ip:]host_port:machine_port`.
    InvalidFormat,
}

/// A forwarded port: `[host_ip:]host_port:machine_port`.
#[derive(Debug, PartialEq, Eq)]
pub struct Publish {
    pub host_ip: Option<String>,
    pub host_port: u16,
    pub machine_port: u16,
}

/// The mathematical value of a publish entry.
pub struct PublishV {
    pub host_ip: Option<Seq<char>>,
    pub host_port: u16,
    pub machine_port: u16,
}

impl View for Publish {
    type V = PublishV;

    open spec fn view(&self) -> PublishV {
        PublishV {
            host_ip: match self.host_ip {
                Some(ip) => Some(ip@),
                None => None,
            },
            host_port: self.host_port,
            machine_port: self.machine_port,
        }
    }
}

impl DeepView for Publish {
    type V = PublishV;

    open spec fn deep_view(&self) -> PublishV {
        self.view()
    }
}

impl Clone for Publish {
    fn clone(&self) -> (r: Self)
        ensures
            r == *self,
    {
        Publish {
            host_ip: match &self.host_ip {
                Some(ip) => Some(ip.clone()),
                None => None,
            },
            host_port: self.host_port,
            machine_port: self.machine_port,
        }
    }
}

/// What parsing publish text yields: the value when the text has two or three
/// `:`-separated fields whose last two are sixteen-bit numerals, and the exact
/// error otherwise.
pub open spec fn spec_parse_publish(s: Seq<char>) -> Result<PublishV, ParsePublishError> {
    let parts = split_char(s, ':');
    if parts.len() < 2 {
        Err(ParsePublishError::InvalidFormat)
    } else {
        let hp = parts[parts.len() - 2];
        let mp = parts[parts.len() - 1];
        if !is_u16_numeral(hp) || !is_u16_numeral(mp) {
            Err(ParsePublishError::IntParseError)
        } else if parts.len() == 2 {
            Ok(
                PublishV {
                    host_ip: None,
                    host_port: dec_val(sign_stripped(hp)) as u16,
                    machine_port: dec_val(sign_stripped(mp)) as u16,
                },
            )
        } else if parts.len() == 3 {
            Ok(
                PublishV {
                    host_ip: Some(parts[0]),
                    host_port: dec_val(sign_stripped(hp)) as u16,
                    machine_port: dec_val(sign_stripped(mp)) as u16,
                },
            )
        } else {
            Err(ParsePublishError::InvalidFormat)
        }
    }
}

/// The text form of a publish entry.
pub open spec fn spec_format_publish(p: PublishV) -> Seq<char> {
    let ports = dec_str(p.host_port as nat) + seq![':'] + dec_str(p.machine_port as nat);
    match p.host_ip {
        Some(ip) => ip + seq![':'] + ports,
        None => ports,
    }
}

impl Publish {
    /// Reads a publish entry from its text form.
    pub fn from_str(s: &str) -> (r: Result<Publish, ParsePublishError>)
        ensures
            spec_parse_publish(s@) == match r {
                Ok(p) => Ok::<PublishV, ParsePublishError>(p@),
                Err(e) => Err::<PublishV, ParsePublishError>(e),
            },
    {
        let parts = split_str(s, ':');
        let n = parts.len();
        proof {
            assert(parts.deep_view().len() == parts@.len());
        }
        if n < 2 {
            return Err(ParsePublishError::InvalidFormat);
        }
        proof {
            assert(parts.deep_view()[n - 2] == parts@[n - 2]@);
            assert(parts.deep_view()[n - 1] == parts@[n - 1]@);
        }
        let hp = parse_u16(parts[n - 2].as_str());
        let mp = parse_u16(parts[n - 1].as_str());
        match (hp, mp) {
            (Some(h), Some(m)) => {
                if n == 2 {
                    Ok(Publish { host_ip: None, host_port: h, machine_port: m })
                } else if n == 3 {
                    proof {
                        assert(parts.deep_view()[0] == parts@[0]@);
                    }
                    let ip = parts[0].clone();
                    Ok(Publish { host_ip: Some(ip), host_port: h, machine_port: m })
                } else {
                    Err(ParsePublishError::InvalidFormat)
                }
            },
            _ => Err(ParsePublishError::IntParseError),
        }
    }

    /// The text form `[host_ip:]host_port:machine_port`.
    pub fn to_text(&self) -> (r: String)
        ensures
            r@ == spec_format_publish(self@),
    {
        proof {
            reveal_strlit(":");
        }
        let mut out = String::new();
        match &self.host_ip {
            Some(ip) => {
                out.append(ip.as_str());
                out.append(":");
            },
            None => {},
        }
        let hp = u64_to_dec(self.host_port as u64);
        out.append(hp.as_str());
        out.append(":");
        let mp = u64_to_dec(self.machine_port as u64);
        out.append(mp.as_str());
        proof {
            assert(":"@ =~= seq![':']);
            assert(out@ =~= spec_format_publish(self@));
        }
        out
    }
}

/// Parsing the text form of a publish entry reproduces the entry exactly,
/// for every entry whose host address (when present) is free of `:`.
pub proof fn lemma_publish_round_trip(p: PublishV)
    requires
        p.host_ip matches Some(ip) ==> !ip.contains(':'),
    ensures
        spec_parse_publish(spec_format_publish(p)) == Ok::<PublishV, ParsePublishError>(p),
{
    let hp = dec_str(p.host_port as nat);
    let mp = dec_str(p.machine_port as nat);
    lemma_dec_str_digits(p.host_port as nat);
    lemma_dec_str_digits(p.machine_port as nat);
    lemma_digits_free_of(hp, ':');
    lemma_digits_free_of(mp, ':');
    lemma_dec_round_trip(p.host_port as nat);
    lemma_dec_round_trip(p.machine_port as nat);
    assert(sign_stripped(hp) == hp);
    assert(sign_stripped(mp) == mp);
    let s = spec_format_publish(p);
    match p.host_ip {
        None => {
            assert(s =~= hp + seq![':'] + mp);
            lemma_split_prefix(hp, mp, ':');
            lemma_split_no_sep(mp, ':');
            let parts = split_char(s, ':');
            assert(parts == seq![hp] + seq![mp]);
            assert(parts.len() == 2);
            assert(parts[0] == hp);
            assert(parts[1] == mp);
        },
        Some(ip) => {
            let rest = hp + seq![':'] + mp;
            assert(s =~= ip + seq![':'] + rest);
            lemma_split_prefix(ip, rest, ':');
            lemma_split_prefix(hp, mp, ':');
            lemma_split_no_sep(mp, ':');
            let parts = split_char(s, ':');
            assert(parts == seq![ip] + (seq![hp] + seq![mp]));
            assert(parts.len() == 3);
            assert(parts[0] == ip);
            assert(parts[1] == hp);
            assert(parts[2] == mp);
        },
    }
}

// ---------------------------------------------------------------------------
// Volume
// ---------------------------------------------------------------------------

/// Failure of reading a volume entry from text.
#[derive(Debug, Clone, Copy, PartialEq, Eq, Structural)]
pub enum ParseVolumeError {
    /// The text does not have the shape
    /// `host_path:machine_path[:ro|readonly|volume-nocopy,..]`.
    InvalidFormat,
}

/// A bind mount: `host_path:machine_path[:opt,..]` with options drawn from
/// `ro`, `readonly` and `volume-nocopy`.
#[derive(Debug, PartialEq, Eq)]
pub struct Volume {
    pub host_path: String,
    pub machine_path: String,
    pub opts: Vec<String>,
}

/// The mathematical value of a volume entry.
pub struct VolumeV {
    pub host_path: Seq<char>,
    pub machine_path: Seq<char>,
    pub opts: Seq<Seq<char>>,
}

impl View for Volume {
    type V = VolumeV;

    open spec fn view(&self) -> VolumeV {
        VolumeV {
            host_path: self.host_path@,
            machine_path: self.machine_path@,
            opts: self.opts.deep_view(),
        }
    }
}

impl DeepView for Volume {
    type V = VolumeV;

    open spec fn deep_view(&self) -> VolumeV {
        self.view()
    }
}

impl Clone for Volume {
    fn clone(&self) -> (r: Self)
        ensures
            r@ == self@,
    {
        let opts = self.opts.clone();
        proof {
            assert(forall|i: int|
                0 <= i < self.opts@.len() ==> opts@[i] == self.opts@[i]);
            assert(opts@ =~= self.opts@);
            assert(opts.deep_view() =~= self.opts.deep_view());
        }
        Volume {
            host_path: self.host_path.clone(),
            machine_path: self.machine_path.clone(),
            opts,
        }
    }
}

/// The three mount options the format accepts.
pub open spec fn allowed_opt(o: Seq<char>) -> bool {
    o == "ro"@ || o == "readonly"@ || o == "volume-nocopy"@
}

/// What parsing volume text yields: the value when the text has two or three
/// `:`-separated fields and every option in the third is allowed, and the
/// error otherwise.
pub open spec fn spec_parse_volume(s: Seq<char>) -> Result<VolumeV, ParseVolumeError> {
    let parts = split_char(s, ':');
    if parts.len() == 2 {
        Ok(VolumeV { host_path: parts[0], machine_path: parts[1], opts: Seq::empty() })
    } else if parts.len() == 3 {
        let opts = split_char(parts[2], ',');
        if forall|i: int| 0 <= i < opts.len() ==> allowed_opt(#[trigger] opts[i]) {
            Ok(VolumeV { host_path: parts[0], machine_path: parts[1], opts })
        } else {
            Err(ParseVolumeError::InvalidFormat)
        }
    } else {
        Err(ParseVolumeError::InvalidFormat)
    }
}

/// The text form of a volume entry.
pub open spec fn spec_format_volume(v: VolumeV) -> Seq<char> {
    let base = v.host_path + seq![':'] + v.machine_path;
    if v.opts.len() > 0 {
        base + seq![':'] + join_char(v.opts, ',')
    } else {
        base
    }
}

impl Volume {
    /// Reads a volume entry from its text form.
    pub fn from_str(s: &str) -> (r: Result<Volume, ParseVolumeError>)
        ensures
            spec_parse_volume(s@) == match r {
                Ok(v) => Ok::<VolumeV, ParseVolumeError>(v@),
                Err(e) => Err::<VolumeV, ParseVolumeError>(e),
            },
    {
        let parts = split_str(s, ':');
        let n = parts.len();
        proof {
            assert(parts.deep_view().len() == parts@.len());
        }
        if n == 2 {
            proof {
                assert(parts.deep_view()[0] == parts@[0]@);
                assert(parts.deep_view()[1] == parts@[1]@);
            }
            let host_path = parts[0].clone();
            let machine_path = parts[1].clone();
            let r = Volume { host_path, machine_path, opts: Vec::new() };
            proof {
                assert(r@.opts =~= Seq::<Seq<char>>::empty());
            }
            Ok(r)
        } else if n == 3 {
            proof {
                assert(parts.deep_view()[0] == parts@[0]@);
                assert(parts.deep_view()[1] == parts@[1]@);
                assert(parts.deep_view()[2] == parts@[2]@);
            }
            let opts = split_str(parts[2].as_str(), ',');
            let m = opts.len();
            let ghost sparts = split_char(s@, ':');
            let mut i: usize = 0;
            while i < m
                invariant
                    0 <= i <= m,
                    m == opts@.len(),
                    forall|j: int| 0 <= j < i ==> allowed_opt(#[trigger] opts.deep_view()[j]),
                    sparts == split_char(s@, ':'),
                    sparts.len() == 3,
                    opts.deep_view() == split_char(sparts[2], ','),
                decreases m - i,
            {
                let o = opts[i].as_str();
                let ok = str_eq(o, "ro") || str_eq(o, "readonly") || str_eq(o, "volume-nocopy");
                if !ok {
                    proof {
                        assert(opts.deep_view()[i as int] == opts@[i as int]@);
                        assert(!allowed_opt(opts.deep_view()[i as int]));
                        let sopts = split_char(sparts[2], ',');
                        assert(!(forall|k: int|
                            0 <= k < sopts.len() ==> allowed_opt(#[trigger] sopts[k]))) by {
                            assert(!allowed_opt(sopts[i as int]));
                        }
                    }
                    return Err(ParseVolumeError::InvalidFormat);
                }
                proof {
                    assert(opts.deep_view()[i as int] == opts@[i as int]@);
                }
                i += 1;
            }
            let host_path = parts[0].clone();
            let machine_path = parts[1].clone();
            Ok(Volume { host_path, machine_path, opts })
        } else {
            Err(ParseVolumeError::InvalidFormat)
        }
    }

    /// The text form `host_path:machine_path[:opt,..]`.
    pub fn to_text(&self) -> (r: String)
        ensures
            r@ == spec_format_volume(self@),
    {
        proof {
            reveal_strlit(":");
            reveal_strlit(",");
        }
        let mut out = self.host_path.clone();
        out.append(":");
        out.append(self.machine_path.as_str());
        if self.opts.len() > 0 {
            out.append(":");
            let joined = join_strs(&self.opts, 0, self.opts.len(), ",");
            out.append(joined.as_str());
            proof {
                assert(self.opts.deep_view().subrange(0, self.opts@.len() as int) =~= self
                    .opts
                    .deep_view());
            }
        }
        proof {
            assert(":"@ =~= seq![':']);
            assert(","@ =~= seq![',']);
            assert(out@ =~= spec_format_volume(self@));
        }
        out
    }
}

/// An allowed option word contains neither `:` nor `,`.
proof fn lemma_allowed_opt_chars(o: Seq<char>)
    requires
        allowed_opt(o),
    ensures
        !o.contains(':'),
        !o.contains(','),
{
    reveal_strlit("ro");
    reveal_strlit("readonly");
    reveal_strlit("volume-nocopy");
    if o.contains(':') {
        let i = choose|i: int| 0 <= i < o.len() && o[i] == ':';
        assert(o[i] != ':');
    }
    if o.contains(',') {
        let i = choose|i: int| 0 <= i < o.len() && o[i] == ',';
        assert(o[i] != ',');
    }
}

/// Parsing the text form of a volume entry reproduces the entry exactly, for
/// every entry whose paths are free of `:` and whose options are allowed.
pub proof fn lemma_volume_round_trip(v: VolumeV)
    requires
        !v.host_path.contains(':'),
        !v.machine_path.contains(':'),
        forall|i: int| 0 <= i < v.opts.len() ==> allowed_opt(#[trigger] v.opts[i]),
    ensures
        spec_parse_volume(spec_format_volume(v)) == Ok::<VolumeV, ParseVolumeError>(v),
{
    let s = spec_format_volume(v);
    assert forall|i: int| 0 <= i < v.opts.len() implies !(#[trigger] v.opts[i]).contains(':')
        && !v.opts[i].contains(',') by {
        lemma_allowed_opt_chars(v.opts[i]);
    }
    if v.opts.len() == 0 {
        assert(s =~= v.host_path + seq![':'] + v.machine_path);
        lemma_split_prefix(v.host_path, v.machine_path, ':');
        lemma_split_no_sep(v.machine_path, ':');
        let parts = split_char(s, ':');
        assert(parts == seq![v.host_path] + seq![v.machine_path]);
        assert(parts.len() == 2);
        assert(parts[0] == v.host_path);
        assert(parts[1] == v.machine_path);
        assert(v.opts =~= Seq::<Seq<char>>::empty());
    } else {
        let j = join_char(v.opts, ',');
        lemma_join_free_of(v.opts, ',', ':');
        let rest = v.machine_path + seq![':'] + j;
        assert(s =~= v.host_path + seq![':'] + rest);
        lemma_split_prefix(v.host_path, rest, ':');
        lemma_split_prefix(v.machine_path, j, ':');
        lemma_split_no_sep(j, ':');
        let parts = split_char(s, ':');
        assert(parts == seq![v.host_path] + (seq![v.machine_path] + seq![j]));
        assert(parts.len() == 3);
        assert(parts[0] == v.host_path);
        assert(parts[1] == v.machine_path);
        assert(parts[2] == j);
        lemma_split_join(v.opts, ',');
    }
}

} // verus!
