//! Composable toolchain fragments: the parsed node type, the file-name
//! conventions that locate fragments, the splitting of a source file into
//! metadata and script, and the recursive resolution of references into one
//! flat, de-duplicated, order-preserving descendant list.

use vstd::prelude::*;
use vstd::string::StrSliceExecFns;
use vstd::string::StringExecFns;

use crate::config::{Publish, PublishV, Volume, VolumeV};
use crate::strutil::{find_char, join_char, split_char};
use crate::strutil::{join_strs, push_char, split_str, str_eq, vec_contains_str};

verus! {

// ---------------------------------------------------------------------------
// Types
// ---------------------------------------------------------------------------

/// The metadata block of a toolchain fragment. Absent keys stay `None`; the
/// environment map keeps its insertion order.
#[derive(Debug)]
pub struct MixinYaml {
    pub base: Option<String>,
    pub install: Option<Vec<String>>,
    pub mixin: Option<Vec<String>>,
    pub publish: Option<Vec<Publish>>,
    pub volume: Option<Vec<Volume>>,
    pub env: Option<Vec<(String, String)>>,
}

/// The mathematical value of a metadata block.
pub struct YamlV {
    pub base: Option<Seq<char>>,
    pub install: Option<Seq<Seq<char>>>,
    pub mixin: Option<Seq<Seq<char>>>,
    pub publish: Option<Seq<PublishV>>,
    pub volume: Option<Seq<VolumeV>>,
    pub env: Option<Seq<(Seq<char>, Seq<char>)>>,
}

impl View for MixinYaml {
    type V = YamlV;

    open spec fn view(&self) -> YamlV {
        YamlV {
            base: self.base.deep_view(),
            install: self.install.deep_view(),
            mixin: self.mixin.deep_view(),
            publish: self.publish.deep_view(),
            volume: self.volume.deep_view(),
            env: self.env.deep_view(),
        }
    }
}

impl Default for MixinYaml {
    /// A metadata block with every key absent.
    fn default() -> (r: MixinYaml)
        ensures
            r@.base is None,
            r@.install is None,
            r@.mixin is None,
            r@.publish is None,
            r@.volume is None,
            r@.env is None,
    {
        MixinYaml {
            base: None,
            install: None,
            mixin: None,
            publish: None,
            volume: None,
            env: None,
        }
    }
}

/// One toolchain fragment: its origin path, parsed metadata, optional raw
/// script, and - once resolved - the flat ordered list of its transitive
/// descendants.
#[derive(Debug)]
pub struct Mixin {
    pub path: String,
    pub yaml: MixinYaml,
    pub children: Vec<Mixin>,
    pub script: Option<String>,
}

/// The mathematical value of one fragment, without its descendants.
pub struct NodeV {
    pub path: Seq<char>,
    pub yaml: YamlV,
    pub script: Option<Seq<char>>,
}

impl View for Mixin {
    type V = NodeV;

    open spec fn view(&self) -> NodeV {
        NodeV { path: self.path@, yaml: self.yaml@, script: self.script.deep_view() }
    }
}

/// The node values of a list of fragments.
pub open spec fn nodes_view(v: Seq<Mixin>) -> Seq<NodeV> {
    v.map_values(|m: Mixin| m@)
}

// ---------------------------------------------------------------------------
// Look-up conventions
// ---------------------------------------------------------------------------

impl Mixin {
    /// The candidate file names for a named toolchain, most direct first.
    pub fn lookup_paths_named(name: &str) -> (r: Vec<String>)
        ensures
            r.deep_view() =~= seq![
                name@ + ".yaml"@,
                ".mc/"@ + name@ + ".yaml"@,
                ".mc/"@ + name@ + "/"@ + name@ + ".yaml"@,
            ],
    {
        let mut first = name.to_owned();
        first.append(".yaml");
        let mut second = ".mc/".to_owned();
        second.append(name);
        second.append(".yaml");
        let mut third = ".mc/".to_owned();
        third.append(name);
        third.append("/");
        third.append(name);
        third.append(".yaml");
        let r = vec![first, second, third];
        proof {
            assert(r.deep_view() =~= seq![
                name@ + ".yaml"@,
                ".mc/"@ + name@ + ".yaml"@,
                ".mc/"@ + name@ + "/"@ + name@ + ".yaml"@,
            ]);
        }
        r
    }

    /// The candidate file names for the unnamed toolchain.
    pub fn lookup_path_unnamed() -> (r: Vec<String>)
        ensures
            r.deep_view() =~= seq!["mc.yaml"@, ".mc/mc.yaml"@],
    {
        let r = vec!["mc.yaml".to_owned(), ".mc/mc.yaml".to_owned()];
        proof {
            assert(r.deep_view() =~= seq!["mc.yaml"@, ".mc/mc.yaml"@]);
        }
        r
    }
}

// ---------------------------------------------------------------------------
// Paths
// ---------------------------------------------------------------------------

/// Index of the last occurrence of `c` in `s`, or `-1` when absent.
pub open spec fn rfind_char(s: Seq<char>, c: char) -> int
    decreases s.len(),
{
    if s.len() == 0 {
        -1
    } else if s.last() == c {
        s.len() - 1
    } else {
        rfind_char(s.drop_last(), c)
    }
}

proof fn lemma_rfind_char(s: Seq<char>, c: char)
    ensures
        -1 <= rfind_char(s, c) < s.len(),
        rfind_char(s, c) >= 0 ==> s[rfind_char(s, c)] == c,
        forall|j: int| rfind_char(s, c) < j < s.len() ==> s[j] != c,
    decreases s.len(),
{
    if s.len() > 0 && s.last() != c {
        lemma_rfind_char(s.drop_last(), c);
        assert forall|j: int| rfind_char(s, c) < j < s.len() implies s[j] != c by {
            if j < s.len() - 1 {
                assert(s.drop_last()[j] == s[j]);
            }
        }
    }
}

proof fn lemma_rfind_char_at(s: Seq<char>, c: char, i: int)
    requires
        -1 <= i < s.len(),
        i >= 0 ==> s[i] == c,
        forall|j: int| i < j < s.len() ==> s[j] != c,
    ensures
        rfind_char(s, c) == i,
{
    lemma_rfind_char(s, c);
    let f = rfind_char(s, c);
    if f < i {
        assert(s[i] == c);
    }
    if i < f {
        assert(s[f] != c);
    }
}

/// The directory part of a path: everything before the last `/`, the root
/// `/` for top-level absolute paths, empty for bare file names.
pub open spec fn parent_dir(p: Seq<char>) -> Seq<char> {
    let i = rfind_char(p, '/');
    if i < 0 {
        Seq::empty()
    } else if i == 0 {
        seq!['/']
    } else {
        p.take(i)
    }
}

/// Whether a path does not start from the root.
pub open spec fn is_relative(p: Seq<char>) -> bool {
    !(p.len() > 0 && p[0] == '/')
}

/// A directory and a path below it, joined with a single `/`.
pub open spec fn join_path(a: Seq<char>, b: Seq<char>) -> Seq<char> {
    if a.len() == 0 {
        b
    } else if a.last() == '/' {
        a + b
    } else {
        a + seq!['/'] + b
    }
}

/// The directory part of a path.
pub fn parent_dir_str(p: &str) -> (r: String)
    ensures
        r@ == parent_dir(p@),
{
    proof {
        reveal_strlit("/");
        assert("/"@ =~= seq!['/']);
    }
    let len = p.unicode_len();
    let mut i: usize = len;
    while i > 0
        invariant
            0 <= i <= len,
            len == p@.len(),
            forall|j: int| i <= j < len ==> p@[j] != '/',
        decreases i,
    {
        if p.get_char(i - 1) == '/' {
            proof {
                lemma_rfind_char_at(p@, '/', i - 1);
                reveal_strlit("/");
                assert("/"@ =~= seq!['/']);
            }
            if i - 1 == 0 {
                return "/".to_owned();
            }
            let r = p.substring_char(0, i - 1).to_owned();
            proof {
                assert(p@.subrange(0, i - 1) =~= p@.take(i - 1));
            }
            return r;
        }
        i -= 1;
    }
    proof {
        lemma_rfind_char_at(p@, '/', -1);
    }
    String::new()
}

/// Joins a directory and a path below it.
fn join_path_str(a: &str, b: &str) -> (r: String)
    ensures
        r@ == join_path(a@, b@),
{
    proof {
        reveal_strlit("/");
        assert("/"@ =~= seq!['/']);
    }
    let alen = a.unicode_len();
    if alen == 0 {
        b.to_owned()
    } else if a.get_char(alen - 1) == '/' {
        let mut r = a.to_owned();
        r.append(b);
        r
    } else {
        let mut r = a.to_owned();
        r.append("/");
        r.append(b);
        proof {
            assert(r@ =~= a@ + seq!['/'] + b@);
        }
        r
    }
}

/// The file-name part of a path: everything after the last `/`.
pub open spec fn file_name(p: Seq<char>) -> Seq<char> {
    p.skip(rfind_char(p, '/') + 1)
}

/// The file-name part of a path.
pub fn file_name_str(p: &str) -> (r: String)
    ensures
        r@ == file_name(p@),
{
    let len = p.unicode_len();
    let mut i: usize = len;
    while i > 0
        invariant
            0 <= i <= len,
            len == p@.len(),
            forall|j: int| i <= j < len ==> p@[j] != '/',
        decreases i,
    {
        if p.get_char(i - 1) == '/' {
            proof {
                lemma_rfind_char_at(p@, '/', i - 1);
            }
            let r = p.substring_char(i, len).to_owned();
            proof {
                assert(p@.subrange(i as int, len as int) =~= p@.skip(i as int));
            }
            return r;
        }
        i -= 1;
    }
    proof {
        lemma_rfind_char_at(p@, '/', -1);
        assert(p@.skip(0) =~= p@);
    }
    p.to_owned()
}

/// A sequence with some element rejected filters to something strictly
/// shorter.
proof fn lemma_filter_shorter<A>(s: Seq<A>, pred: spec_fn(A) -> bool, i: int)
    requires
        0 <= i < s.len(),
        !pred(s[i]),
    ensures
        s.filter(pred).len() < s.len(),
    decreases s.len(),
{
    reveal(Seq::filter);
    if i == s.len() - 1 {
        s.drop_last().lemma_filter_len(pred);
        assert(s.filter(pred) == s.drop_last().filter(pred));
    } else {
        assert(s.drop_last()[i] == s[i]);
        lemma_filter_shorter(s.drop_last(), pred, i);
    }
}

/// How many meaningful segments a path has; the root `/` counts as one.
pub open spec fn path_depth(p: Seq<char>) -> int {
    let kept = split_char(p, '/').filter(|s: Seq<char>| keeps_segment(s));
    if p.len() > 0 && p[0] == '/' {
        kept.len() as int + 1
    } else {
        kept.len() as int
    }
}

/// How many meaningful segments a path has.
pub fn path_depth_str(p: &str) -> (r: usize)
    ensures
        r as int == path_depth(p@),
{
    proof {
        reveal_strlit(".");
    }
    let segs = split_str(p, '/');
    let ghost pred = |s: Seq<char>| keeps_segment(s);
    let n = segs.len();
    let mut count: usize = 0;
    let mut i: usize = 0;
    proof {
        reveal(Seq::filter);
        assert(segs.deep_view().take(0).filter(pred) =~= Seq::<Seq<char>>::empty());
        broadcast use vstd::seq_lib::group_filter_ensures;

    }
    while i < n
        invariant
            0 <= i <= n,
            n == segs@.len(),
            segs.deep_view() == split_char(p@, '/'),
            pred == (|s: Seq<char>| keeps_segment(s)),
            count <= i,
            count as int == segs.deep_view().take(i as int).filter(pred).len(),
        decreases n - i,
    {
        let seg = &segs[i];
        let keep = seg.unicode_len() > 0 && !str_eq(seg.as_str(), ".");
        proof {
            assert(segs.deep_view()[i as int] == segs@[i as int]@);
            assert(keep == pred(segs.deep_view()[i as int]));
            reveal(Seq::filter);
            let tk = segs.deep_view().take(i + 1);
            assert(tk.drop_last() =~= segs.deep_view().take(i as int));
            assert(tk.last() == segs.deep_view()[i as int]);
            if keep {
                assert(tk.filter(pred) =~= tk.drop_last().filter(pred).push(tk.last()));
            } else {
                assert(tk.filter(pred) =~= tk.drop_last().filter(pred));
            }
        }
        if keep {
            count += 1;
        }
        i += 1;
    }
    proof {
        assert(segs.deep_view().take(n as int) =~= segs.deep_view());
    }
    let rooted = p.unicode_len() > 0 && p.get_char(0) == '/';
    if rooted {
        proof {
            let segs_v = split_char(p@, '/');
            assert(find_char(p@, '/') == 0);
            assert(segs_v[0] =~= p@.take(0));
            assert(!pred(segs_v[0]));
            lemma_filter_shorter(segs_v, pred, 0);
        }
        count + 1
    } else {
        count
    }
}

impl Mixin {
    /// A path interpreted relative to this fragment's own directory: relative
    /// paths are joined onto it, absolute paths pass through.
    pub fn add_parent_path(&self, path: &str) -> (r: String)
        ensures
            r@ == if is_relative(path@) {
                join_path(parent_dir(self.path@), path@)
            } else {
                path@
            },
    {
        let plen = path.unicode_len();
        let relative = if plen == 0 {
            true
        } else {
            path.get_char(0) != '/'
        };
        if relative {
            let pd = parent_dir_str(self.path.as_str());
            join_path_str(pd.as_str(), path)
        } else {
            path.to_owned()
        }
    }
}

/// Whether a path segment survives normalization: non-empty and not `.`.
pub open spec fn keeps_segment(s: Seq<char>) -> bool {
    s.len() > 0 && s != "."@
}

/// A path with empty and `.` segments removed, keeping a root `/`.
pub open spec fn normalize_segments(p: Seq<char>) -> Seq<char> {
    let kept = split_char(p, '/').filter(|s: Seq<char>| keeps_segment(s));
    let joined = join_char(kept, '/');
    if p.len() > 0 && p[0] == '/' {
        seq!['/'] + joined
    } else {
        joined
    }
}

/// Where a reference from a fragment at `parent` points: the reference with
/// `.yaml` appended, taken relative to the parent's directory unless
/// absolute, with empty and `.` segments removed.
pub open spec fn spec_normalized_path(parent: Seq<char>, reference: Seq<char>) -> Seq<char> {
    let full = reference + ".yaml"@;
    let joined = if is_relative(full) {
        join_path(parent_dir(parent), full)
    } else {
        full
    };
    normalize_segments(joined)
}

/// Resolves a reference from the fragment at `parent` to the file it names.
pub fn normalized_path(parent: &str, reference: &str) -> (r: String)
    ensures
        r@ == spec_normalized_path(parent@, reference@),
{
    proof {
        reveal_strlit("/");
        reveal_strlit(".");
        assert("/"@ =~= seq!['/']);
    }
    let mut full = reference.to_owned();
    full.append(".yaml");
    let flen = full.unicode_len();
    let relative = if flen == 0 {
        true
    } else {
        full.get_char(0) != '/'
    };
    let joined = if relative {
        let pd = parent_dir_str(parent);
        join_path_str(pd.as_str(), full.as_str())
    } else {
        full
    };
    let segs = split_str(joined.as_str(), '/');
    let ghost pred = |s: Seq<char>| keeps_segment(s);
    let mut kept: Vec<String> = Vec::new();
    let n = segs.len();
    let mut i: usize = 0;
    proof {
        assert(segs.deep_view().take(0).filter(pred) =~= kept.deep_view()) by {
            reveal(Seq::filter);
        }
    }
    while i < n
        invariant
            0 <= i <= n,
            n == segs@.len(),
            segs.deep_view() == split_char(joined@, '/'),
            pred == (|s: Seq<char>| keeps_segment(s)),
            kept.deep_view() == segs.deep_view().take(i as int).filter(pred),
        decreases n - i,
    {
        let ghost pre = kept.deep_view();
        let seg = &segs[i];
        let keep = seg.unicode_len() > 0 && !str_eq(seg.as_str(), ".");
        proof {
            assert(segs.deep_view()[i as int] == segs@[i as int]@);
            assert(keep == pred(segs.deep_view()[i as int]));
        }
        if keep {
            let s = seg.clone();
            kept.push(s);
        }
        proof {
            reveal(Seq::filter);
            let tk = segs.deep_view().take(i + 1);
            assert(tk.drop_last() =~= segs.deep_view().take(i as int));
            assert(tk.last() == segs.deep_view()[i as int]);
            if keep {
                assert(kept.deep_view() =~= pre.push(segs.deep_view()[i as int]));
                assert(tk.filter(pred) =~= tk.drop_last().filter(pred).push(tk.last()));
            } else {
                assert(tk.filter(pred) =~= tk.drop_last().filter(pred));
            }
            assert(kept.deep_view() == segs.deep_view().take(i + 1).filter(pred));
        }
        i += 1;
    }
    proof {
        assert(segs.deep_view().take(n as int) =~= segs.deep_view());
    }
    let jlen = joined.unicode_len();
    let rooted = jlen > 0 && joined.get_char(0) == '/';
    let tail = join_strs(&kept, 0, kept.len(), "/");
    proof {
        assert(kept.deep_view().subrange(0, kept@.len() as int) =~= kept.deep_view());
    }
    if rooted {
        let mut out = "/".to_owned();
        out.append(tail.as_str());
        proof {
            assert(out@ =~= seq!['/'] + tail@);
        }
        out
    } else {
        tail
    }
}

// ---------------------------------------------------------------------------
// Source framing
// ---------------------------------------------------------------------------

/// Failure of splitting a source file into metadata and script.
#[derive(Debug, Clone, Copy, PartialEq, Eq, Structural)]
pub enum MixinFormatError {
    /// The file was empty.
    EmptyFile,
    /// A metadata block was opened with `---` but never closed.
    MissingClosingDelimiter,
}

/// Line endings normalized: every `\r\n` becomes `\n`.
pub open spec fn strip_cr(s: Seq<char>) -> Seq<char>
    decreases s.len(),
{
    if s.len() == 0 {
        Seq::empty()
    } else if s.len() >= 2 && s[0] == '\r' && s[1] == '\n' {
        seq!['\n'] + strip_cr(s.skip(2))
    } else {
        seq![s[0]] + strip_cr(s.skip(1))
    }
}

/// The lines of a text, as `str::lines` yields them: split at `\n`, with no
/// empty final line when the text ends in a newline.
pub open spec fn spec_lines(s: Seq<char>) -> Seq<Seq<char>> {
    if s.len() == 0 {
        Seq::empty()
    } else {
        let parts = split_char(s, '\n');
        if s.last() == '\n' {
            parts.drop_last()
        } else {
            parts
        }
    }
}

pub open spec fn is_space(c: char) -> bool {
    c == ' ' || c == '\t' || c == '\r'
}

pub open spec fn strip_front(s: Seq<char>) -> Seq<char>
    decreases s.len(),
{
    if s.len() > 0 && is_space(s[0]) {
        strip_front(s.drop_first())
    } else {
        s
    }
}

pub open spec fn strip_back(s: Seq<char>) -> Seq<char>
    decreases s.len(),
{
    if s.len() > 0 && is_space(s.last()) {
        strip_back(s.drop_last())
    } else {
        s
    }
}

/// Leading and trailing blanks removed.
pub open spec fn trim_spec(s: Seq<char>) -> Seq<char> {
    strip_back(strip_front(s))
}

/// Whether a line, trimmed, is exactly the metadata delimiter `---`.
pub open spec fn is_delim_line(s: Seq<char>) -> bool {
    trim_spec(s) == "---"@
}

proof fn lemma_strip_front_at(s: Seq<char>, k: int)
    requires
        0 <= k <= s.len(),
        forall|j: int| 0 <= j < k ==> is_space(#[trigger] s[j]),
        k < s.len() ==> !is_space(s[k]),
    ensures
        strip_front(s) == s.skip(k),
    decreases k,
{
    if k == 0 {
        assert(s.skip(0) =~= s);
    } else {
        assert(is_space(s[0]));
        let t = s.drop_first();
        assert(forall|j: int| 0 <= j < k - 1 ==> is_space(#[trigger] t[j]));
        lemma_strip_front_at(t, k - 1);
        assert(t.skip(k - 1) =~= s.skip(k));
    }
}

proof fn lemma_strip_back_at(s: Seq<char>, k: int)
    requires
        0 <= k <= s.len(),
        forall|j: int| k <= j < s.len() ==> is_space(#[trigger] s[j]),
        k > 0 ==> !is_space(s[k - 1]),
    ensures
        strip_back(s) == s.take(k),
    decreases s.len() - k,
{
    if k == s.len() {
        assert(s.take(k) =~= s);
    } else {
        assert(is_space(s.last()));
        let t = s.drop_last();
        lemma_strip_back_at(t, k);
        assert(t.take(k) =~= s.take(k));
    }
}

/// Whether a line, trimmed of blanks, is exactly `---`.
pub fn is_delim_str(s: &str) -> (r: bool)
    ensures
        r == is_delim_line(s@),
{
    proof {
        reveal_strlit("---");
        assert("---"@ =~= seq!['-', '-', '-']);
    }
    let len = s.unicode_len();
    let mut a: usize = 0;
    while a < len
        invariant
            0 <= a <= len,
            len == s@.len(),
            forall|j: int| 0 <= j < a ==> is_space(#[trigger] s@[j]),
        ensures
            0 <= a <= len,
            forall|j: int| 0 <= j < a ==> is_space(#[trigger] s@[j]),
            a < len ==> !is_space(s@[a as int]),
        decreases len - a,
    {
        let c = s.get_char(a);
        if !(c == ' ' || c == '\t' || c == '\r') {
            break;
        }
        a += 1;
    }
    if a == len {
        proof {
            lemma_strip_front_at(s@, a as int);
            assert(s@.skip(a as int) =~= Seq::<char>::empty());
            assert(strip_back(Seq::<char>::empty()) == Seq::<char>::empty());
            assert(trim_spec(s@).len() == 0);
        }
        return false;
    }
    proof {
        lemma_strip_front_at(s@, a as int);
    }
    let mut b: usize = len - 1;
    while b > a
        invariant
            a <= b < len,
            len == s@.len(),
            forall|j: int| b < j < len ==> is_space(#[trigger] s@[j]),
        ensures
            a <= b < len,
            forall|j: int| b < j < len ==> is_space(#[trigger] s@[j]),
            b > a ==> !is_space(s@[b as int]),
        decreases b,
    {
        let c = s.get_char(b);
        if !(c == ' ' || c == '\t' || c == '\r') {
            break;
        }
        b -= 1;
    }
    proof {
        assert(!is_space(s@[b as int]));
        let t = s@.skip(a as int);
        assert(forall|j: int| b + 1 - a <= j < t.len() ==> is_space(#[trigger] t[j]));
        assert(t[b - a] == s@[b as int]);
        assert(!is_space(s@[b as int]));
        lemma_strip_back_at(t, b + 1 - a);
        assert(trim_spec(s@) == t.take(b + 1 - a));
        assert(trim_spec(s@) =~= s@.subrange(a as int, b + 1));
    }
    if b + 1 - a != 3 {
        proof {
            assert(trim_spec(s@).len() != 3);
        }
        return false;
    }
    let r = s.get_char(a) == '-' && s.get_char(a + 1) == '-' && s.get_char(a + 2) == '-';
    proof {
        if r {
            assert(trim_spec(s@) =~= "---"@);
        } else {
            assert(trim_spec(s@) != "---"@);
        }
    }
    r
}

/// Line endings normalized: every `\r\n` becomes `\n`.
fn strip_cr_str(s: &str) -> (r: String)
    ensures
        r@ == strip_cr(s@),
{
    let len = s.unicode_len();
    let mut out = String::new();
    let mut i: usize = 0;
    proof {
        assert(s@.skip(0) =~= s@);
        assert(out@ + strip_cr(s@) =~= strip_cr(s@));
    }
    while i < len
        invariant
            0 <= i <= len,
            len == s@.len(),
            strip_cr(s@) == out@ + strip_cr(s@.skip(i as int)),
        decreases len - i,
    {
        let c = s.get_char(i);
        if c == '\r' && i + 1 < len && s.get_char(i + 1) == '\n' {
            push_char(&mut out, '\n');
            proof {
                let t = s@.skip(i as int);
                assert(t[0] == '\r');
                assert(t[1] == '\n');
                assert(t.skip(2) =~= s@.skip(i + 2));
                assert(strip_cr(t) == seq!['\n'] + strip_cr(s@.skip(i + 2)));
            }
            i += 2;
        } else {
            push_char(&mut out, c);
            proof {
                let t = s@.skip(i as int);
                assert(t[0] == c);
                assert(t.skip(1) =~= s@.skip(i + 1));
                if t.len() >= 2 && t[0] == '\r' && t[1] == '\n' {
                    assert(false);
                }
                assert(strip_cr(t) == seq![c] + strip_cr(s@.skip(i + 1)));
            }
            i += 1;
        }
    }
    proof {
        assert(s@.skip(len as int) =~= Seq::<char>::empty());
        assert(strip_cr(Seq::<char>::empty()) =~= Seq::<char>::empty());
        assert(out@ =~= strip_cr(s@));
    }
    out
}

/// The lines of a text.
fn lines_of(s: &str) -> (r: Vec<String>)
    ensures
        r.deep_view() == spec_lines(s@),
{
    let len = s.unicode_len();
    if len == 0 {
        let r: Vec<String> = Vec::new();
        proof {
            assert(r.deep_view() =~= spec_lines(s@));
        }
        return r;
    }
    let mut parts = split_str(s, '\n');
    if s.get_char(len - 1) == '\n' {
        proof {
            crate::strutil::lemma_split_len(s@, '\n');
        }
        let ghost pre = parts.deep_view();
        let _last = parts.pop();
        proof {
            assert(parts.deep_view() =~= pre.drop_last());
        }
    }
    parts
}

/// First index at or after `from` of a delimiter line, or the length.
pub open spec fn find_delim(ls: Seq<Seq<char>>, from: int) -> int
    decreases ls.len() - from,
{
    if from < 0 || from >= ls.len() {
        ls.len() as int
    } else if is_delim_line(ls[from]) {
        from
    } else {
        find_delim(ls, from + 1)
    }
}

proof fn lemma_find_delim_at(ls: Seq<Seq<char>>, from: int, i: int)
    requires
        0 <= from <= i <= ls.len(),
        forall|t: int| from <= t < i ==> !is_delim_line(#[trigger] ls[t]),
        i < ls.len() ==> is_delim_line(ls[i]),
    ensures
        find_delim(ls, from) == i,
    decreases i - from,
{
    if from < i {
        assert(!is_delim_line(ls[from]));
        lemma_find_delim_at(ls, from + 1, i);
    }
}

/// What splitting a source file yields: with a leading delimiter line, the
/// metadata text up to the closing delimiter and the script after it (or an
/// error when the close is missing); without one, the whole text as script.
/// An empty script becomes `None`; an empty file is an error.
pub open spec fn spec_split_source(content: Seq<char>) -> Result<
    (Option<Seq<char>>, Option<Seq<char>>),
    MixinFormatError,
> {
    if content.len() == 0 {
        Err(MixinFormatError::EmptyFile)
    } else {
        let ls = spec_lines(strip_cr(content));
        if ls.len() == 0 {
            Ok((None, None))
        } else if is_delim_line(ls[0]) {
            let j = find_delim(ls, 1);
            if j >= ls.len() {
                Err(MixinFormatError::MissingClosingDelimiter)
            } else {
                let meta = join_char(ls.subrange(1, j), '\n');
                let script = join_char(ls.subrange(j + 1, ls.len() as int), '\n');
                Ok(
                    (
                        Some(meta),
                        if script.len() == 0 {
                            None
                        } else {
                            Some(script)
                        },
                    ),
                )
            }
        } else {
            let script = join_char(ls, '\n');
            Ok(
                (
                    None,
                    if script.len() == 0 {
                        None
                    } else {
                        Some(script)
                    },
                ),
            )
        }
    }
}

/// Splits a source file into its optional metadata text and optional script.
pub fn split_source(content: &str) -> (r: Result<
    (Option<String>, Option<String>),
    MixinFormatError,
>)
    ensures
        match r {
            Ok(p) => spec_split_source(content@) matches Ok(q) && p.0.deep_view() == q.0
                && p.1.deep_view() == q.1,
            Err(e) => spec_split_source(content@) == Err::<
                (Option<Seq<char>>, Option<Seq<char>>),
                MixinFormatError,
            >(e),
        },
{
    proof {
        reveal_strlit("\n");
        assert("\n"@ =~= seq!['\n']);
    }
    if content.unicode_len() == 0 {
        return Err(MixinFormatError::EmptyFile);
    }
    let norm = strip_cr_str(content);
    let ls = lines_of(norm.as_str());
    let n = ls.len();
    let ghost lsv = spec_lines(strip_cr(content@));
    proof {
        assert(ls.deep_view() == lsv);
    }
    if n == 0 {
        return Ok((None, None));
    }
    proof {
        assert(ls.deep_view()[0] == ls@[0]@);
    }
    if is_delim_str(ls[0].as_str()) {
        let mut j: usize = 1;
        loop
            invariant
                1 <= j <= n,
                n == ls@.len(),
                ls.deep_view() == lsv,
                lsv == spec_lines(strip_cr(content@)),
                content@.len() > 0,
                forall|t: int| 1 <= t < j ==> !is_delim_line(#[trigger] lsv[t]),
                is_delim_line(lsv[0]),
            ensures
                1 <= j < n,
                forall|t: int| 1 <= t < j ==> !is_delim_line(#[trigger] lsv[t]),
                is_delim_line(lsv[j as int]),
            decreases n - j,
        {
            if j == n {
                proof {
                    lemma_find_delim_at(lsv, 1, n as int);
                }
                return Err(MixinFormatError::MissingClosingDelimiter);
            }
            proof {
                assert(ls.deep_view()[j as int] == ls@[j as int]@);
            }
            if is_delim_str(ls[j].as_str()) {
                break;
            }
            j += 1;
        }
        proof {
            lemma_find_delim_at(lsv, 1, j as int);
        }
        let meta = join_strs(&ls, 1, j, "\n");
        let script = join_strs(&ls, j + 1, n, "\n");
        proof {
            assert(ls.deep_view().subrange(1, j as int) =~= lsv.subrange(1, j as int));
            assert(ls.deep_view().subrange(j + 1, n as int) =~= lsv.subrange(j + 1, n as int));
        }
        let script_opt = if script.unicode_len() == 0 {
            None
        } else {
            Some(script)
        };
        Ok((Some(meta), script_opt))
    } else {
        let script = join_strs(&ls, 0, n, "\n");
        proof {
            assert(ls.deep_view().subrange(0, n as int) =~= lsv);
        }
        let script_opt = if script.unicode_len() == 0 {
            None
        } else {
            Some(script)
        };
        Ok((None, script_opt))
    }
}

// ---------------------------------------------------------------------------
// Resolution
// ---------------------------------------------------------------------------

/// Failure of resolving a fragment's references.
#[derive(Debug)]
pub enum ResolveError {
    /// A chain of references leads back to a fragment still being resolved.
    CyclicReference(String),
    /// A referenced fragment is not present in the loaded set.
    MissingMixin(String),
}

/// The mathematical value of a resolution failure.
pub enum ResolveErrV {
    CyclicReference(Seq<char>),
    MissingMixin(Seq<char>),
}

impl View for ResolveError {
    type V = ResolveErrV;

    open spec fn view(&self) -> ResolveErrV {
        match self {
            ResolveError::CyclicReference(p) => ResolveErrV::CyclicReference(p@),
            ResolveError::MissingMixin(p) => ResolveErrV::MissingMixin(p@),
        }
    }
}

/// What resolution yields: the flattened descendant list, or a failure.
pub enum ResolveOutcome {
    Done(Seq<NodeV>),
    Fail(ResolveErrV),
}

/// A fragment's references, empty when the key is absent.
pub open spec fn refs_of(n: NodeV) -> Seq<Seq<char>> {
    match n.yaml.mixin {
        Some(rs) => rs,
        None => Seq::empty(),
    }
}

/// The set of origin paths of a list of fragments.
pub open spec fn node_paths(ns: Seq<NodeV>) -> Set<Seq<char>> {
    ns.map_values(|n: NodeV| n.path).to_set()
}

/// Whether some fragment in the list has the given origin path.
pub open spec fn has_path(ns: Seq<NodeV>, p: Seq<char>) -> bool {
    exists|i: int| 0 <= i < ns.len() && ns[i].path == p
}

/// Index of the first fragment with the given path, or the length.
pub open spec fn find_node(ns: Seq<NodeV>, p: Seq<char>) -> int
    decreases ns.len(),
{
    if ns.len() == 0 {
        0
    } else if ns[0].path == p {
        0
    } else {
        1 + find_node(ns.drop_first(), p)
    }
}

proof fn lemma_find_node(ns: Seq<NodeV>, p: Seq<char>)
    ensures
        0 <= find_node(ns, p) <= ns.len(),
        find_node(ns, p) < ns.len() ==> ns[find_node(ns, p)].path == p,
        forall|j: int| 0 <= j < find_node(ns, p) ==> ns[j].path != p,
    decreases ns.len(),
{
    if ns.len() > 0 && ns[0].path != p {
        lemma_find_node(ns.drop_first(), p);
        assert forall|j: int| 0 <= j < find_node(ns, p) implies ns[j].path != p by {
            if j > 0 {
                assert(ns.drop_first()[j - 1] == ns[j]);
            }
        }
    }
}

proof fn lemma_find_node_at(ns: Seq<NodeV>, p: Seq<char>, i: int)
    requires
        0 <= i <= ns.len(),
        forall|j: int| 0 <= j < i ==> ns[j].path != p,
        i < ns.len() ==> ns[i].path == p,
    ensures
        find_node(ns, p) == i,
{
    lemma_find_node(ns, p);
    let f = find_node(ns, p);
    if f < i {
        assert(ns[f].path == p);
    }
    if i < f {
        assert(ns[i].path != p);
    }
}

/// Pushing onto a sequence inserts into the set of its elements.
proof fn lemma_push_to_set<A>(s: Seq<A>, x: A)
    ensures
        s.push(x).to_set() =~= s.to_set().insert(x),
{
    assert forall|a: A| s.push(x).to_set().contains(a) implies s.to_set().insert(x).contains(
        a,
    ) by {
        let i = choose|i: int| 0 <= i < s.push(x).len() && s.push(x)[i] == a;
        if i < s.len() {
            assert(s[i] == a);
        }
    }
    assert forall|a: A| s.to_set().insert(x).contains(a) implies s.push(x).to_set().contains(
        a,
    ) by {
        if a == x {
            assert(s.push(x)[s.len() as int] == x);
        } else {
            let i = choose|i: int| 0 <= i < s.len() && s[i] == a;
            assert(s.push(x)[i] == a);
        }
    }
}

/// Adding one reachable, unvisited path to the in-progress set strictly
/// shrinks the unvisited part of the loaded set.
proof fn lemma_unvisited_dec(arena: Seq<NodeV>, visiting: Set<Seq<char>>, p: Seq<char>)
    requires
        node_paths(arena).contains(p),
        !visiting.contains(p),
    ensures
        node_paths(arena).difference(visiting.insert(p)).len() < node_paths(arena).difference(
            visiting,
        ).len(),
{
    broadcast use vstd::seq_lib::seq_to_set_is_finite;

    let d = node_paths(arena).difference(visiting);
    let d2 = node_paths(arena).difference(visiting.insert(p));
    assert(node_paths(arena).finite());
    assert(d.finite());
    assert(d.contains(p));
    assert(d2 =~= d.remove(p));
}

/// The recursive resolution of a reference list: each reference in order is
/// normalized against the referencing fragment's path; one already in the
/// accumulated list is skipped; one still in progress fails as a cycle; one
/// absent from the loaded set fails as missing; otherwise its own references
/// resolve first and the fragment itself is appended after its descendants.
pub open spec fn s_resolve(
    parent: Seq<char>,
    refs: Seq<Seq<char>>,
    arena: Seq<NodeV>,
    acc: Seq<NodeV>,
    visiting: Set<Seq<char>>,
) -> ResolveOutcome
    decreases node_paths(arena).difference(visiting).len(), refs.len(),
        via s_resolve_decreases
{
    if refs.len() == 0 {
        ResolveOutcome::Done(acc)
    } else {
        let p = spec_normalized_path(parent, refs[0]);
        if has_path(acc, p) {
            s_resolve(parent, refs.drop_first(), arena, acc, visiting)
        } else if visiting.contains(p) {
            ResolveOutcome::Fail(ResolveErrV::CyclicReference(p))
        } else if find_node(arena, p) < arena.len() {
            let node = arena[find_node(arena, p)];
            match s_resolve(p, refs_of(node), arena, acc, visiting.insert(p)) {
                ResolveOutcome::Done(acc2) => s_resolve(
                    parent,
                    refs.drop_first(),
                    arena,
                    acc2.push(node),
                    visiting,
                ),
                ResolveOutcome::Fail(e) => ResolveOutcome::Fail(e),
            }
        } else {
            ResolveOutcome::Fail(ResolveErrV::MissingMixin(p))
        }
    }
}

#[via_fn]
proof fn s_resolve_decreases(
    parent: Seq<char>,
    refs: Seq<Seq<char>>,
    arena: Seq<NodeV>,
    acc: Seq<NodeV>,
    visiting: Set<Seq<char>>,
) {
    if refs.len() > 0 {
        let p = spec_normalized_path(parent, refs[0]);
        if !has_path(acc, p) && !visiting.contains(p) && find_node(arena, p) < arena.len() {
            lemma_find_node(arena, p);
            let i = find_node(arena, p);
            assert(arena.map_values(|n: NodeV| n.path)[i] == p);
            assert(arena.map_values(|n: NodeV| n.path).contains(p));
            lemma_unvisited_dec(arena, visiting, p);
        }
    }
}

/// The resolution of a whole fragment: its references against an empty
/// accumulated list, with the fragment itself already in progress.
pub open spec fn s_resolve_root(root: NodeV, arena: Seq<NodeV>) -> ResolveOutcome {
    s_resolve(root.path, refs_of(root), arena, Seq::empty(), Set::empty().insert(root.path))
}

// ---------------------------------------------------------------------------
// Laws of resolution
// ---------------------------------------------------------------------------

/// Resolving a reference list in two pieces is resolving the first piece and
/// continuing with the second from its accumulated result: references
/// contribute left to right.
pub proof fn lemma_resolve_split(
    parent: Seq<char>,
    refs1: Seq<Seq<char>>,
    refs2: Seq<Seq<char>>,
    arena: Seq<NodeV>,
    acc: Seq<NodeV>,
    visiting: Set<Seq<char>>,
)
    ensures
        s_resolve(parent, refs1 + refs2, arena, acc, visiting) == match s_resolve(
            parent,
            refs1,
            arena,
            acc,
            visiting,
        ) {
            ResolveOutcome::Done(a1) => s_resolve(parent, refs2, arena, a1, visiting),
            ResolveOutcome::Fail(e) => ResolveOutcome::Fail(e),
        },
    decreases refs1.len(),
{
    if refs1.len() == 0 {
        assert(refs1 + refs2 =~= refs2);
    } else {
        let all = refs1 + refs2;
        assert(all[0] == refs1[0]);
        assert(all.drop_first() =~= refs1.drop_first() + refs2);
        let p = spec_normalized_path(parent, refs1[0]);
        if has_path(acc, p) {
            lemma_resolve_split(parent, refs1.drop_first(), refs2, arena, acc, visiting);
        } else if visiting.contains(p) {
        } else if find_node(arena, p) < arena.len() {
            let node = arena[find_node(arena, p)];
            match s_resolve(p, refs_of(node), arena, acc, visiting.insert(p)) {
                ResolveOutcome::Done(acc2) => {
                    lemma_resolve_split(
                        parent,
                        refs1.drop_first(),
                        refs2,
                        arena,
                        acc2.push(node),
                        visiting,
                    );
                },
                ResolveOutcome::Fail(_) => {},
            }
        }
    }
}

/// A single reference that is new - not yet accumulated, not in progress,
/// and loaded - contributes the referenced fragment's resolved descendants
/// followed by the fragment itself.
pub proof fn lemma_resolve_one(
    parent: Seq<char>,
    r: Seq<char>,
    arena: Seq<NodeV>,
    acc: Seq<NodeV>,
    visiting: Set<Seq<char>>,
)
    requires
        !has_path(acc, spec_normalized_path(parent, r)),
        !visiting.contains(spec_normalized_path(parent, r)),
        find_node(arena, spec_normalized_path(parent, r)) < arena.len(),
    ensures
        ({
            let p = spec_normalized_path(parent, r);
            let node = arena[find_node(arena, p)];
            s_resolve(parent, seq![r], arena, acc, visiting) == match s_resolve(
                p,
                refs_of(node),
                arena,
                acc,
                visiting.insert(p),
            ) {
                ResolveOutcome::Done(d) => ResolveOutcome::Done(d.push(node)),
                ResolveOutcome::Fail(e) => ResolveOutcome::Fail(e),
            }
        }),
{
    let p = spec_normalized_path(parent, r);
    let node = arena[find_node(arena, p)];
    assert(seq![r][0] == r);
    assert(seq![r].drop_first() =~= Seq::<Seq<char>>::empty());
    match s_resolve(p, refs_of(node), arena, acc, visiting.insert(p)) {
        ResolveOutcome::Done(d) => {
            assert(s_resolve(parent, seq![r].drop_first(), arena, d.push(node), visiting)
                == ResolveOutcome::Done(d.push(node)));
        },
        ResolveOutcome::Fail(_) => {},
    }
}

/// Merge-order determinism: a fragment referencing `[b, c]` resolves to b's
/// contribution (its descendants, then b) followed by c's contribution
/// resolved against that accumulated list; the referencing fragment itself
/// is placed after all of them by the specification builder.
pub proof fn lemma_merge_order(
    parent: Seq<char>,
    b: Seq<char>,
    c: Seq<char>,
    arena: Seq<NodeV>,
    acc: Seq<NodeV>,
    visiting: Set<Seq<char>>,
)
    ensures
        s_resolve(parent, seq![b, c], arena, acc, visiting) == match s_resolve(
            parent,
            seq![b],
            arena,
            acc,
            visiting,
        ) {
            ResolveOutcome::Done(a1) => s_resolve(parent, seq![c], arena, a1, visiting),
            ResolveOutcome::Fail(e) => ResolveOutcome::Fail(e),
        },
{
    assert(seq![b, c] =~= seq![b] + seq![c]);
    lemma_resolve_split(parent, seq![b], seq![c], arena, acc, visiting);
}

/// `out` extends `acc` with fragments whose paths are new: absent from
/// `acc`, absent from the in-progress set, and pairwise distinct.
pub open spec fn extends_unique(acc: Seq<NodeV>, out: Seq<NodeV>, visiting: Set<Seq<char>>) -> bool {
    &&& acc.len() <= out.len()
    &&& forall|i: int| 0 <= i < acc.len() ==> out[i] == acc[i]
    &&& forall|k: int|
        acc.len() <= k < out.len() ==> !has_path(acc, (#[trigger] out[k]).path)
            && !visiting.contains(out[k].path)
    &&& forall|k: int, m: int|
        acc.len() <= m < k < out.len() ==> (#[trigger] out[m]).path != (#[trigger] out[k]).path
}

proof fn lemma_extends_trans(
    acc: Seq<NodeV>,
    mid: Seq<NodeV>,
    out: Seq<NodeV>,
    visiting: Set<Seq<char>>,
)
    requires
        extends_unique(acc, mid, visiting),
        extends_unique(mid, out, visiting),
    ensures
        extends_unique(acc, out, visiting),
{
    assert forall|k: int|
        acc.len() <= k < out.len() implies !has_path(acc, (#[trigger] out[k]).path)
        && !visiting.contains(out[k].path) by {
        if k < mid.len() {
            assert(out[k] == mid[k]);
        } else {
            if has_path(acc, out[k].path) {
                let i = choose|i: int| 0 <= i < acc.len() && acc[i].path == out[k].path;
                assert(mid[i] == acc[i]);
                assert(has_path(mid, out[k].path));
            }
        }
    }
    assert forall|k: int, m: int|
        acc.len() <= m < k < out.len() implies (#[trigger] out[m]).path != (#[trigger] out[k]).path by {
        if k < mid.len() {
        } else if m >= mid.len() {
        } else {
            assert(out[m] == mid[m]);
            if out[m].path == out[k].path {
                assert(has_path(mid, out[k].path));
            }
        }
    }
}

proof fn lemma_extends_weaken(
    acc: Seq<NodeV>,
    out: Seq<NodeV>,
    visiting: Set<Seq<char>>,
    p: Seq<char>,
)
    requires
        extends_unique(acc, out, visiting.insert(p)),
    ensures
        extends_unique(acc, out, visiting),
        forall|k: int| acc.len() <= k < out.len() ==> (#[trigger] out[k]).path != p,
{
    assert forall|k: int|
        acc.len() <= k < out.len() implies !has_path(acc, (#[trigger] out[k]).path)
        && !visiting.contains(out[k].path) && out[k].path != p by {
        assert(!visiting.insert(p).contains(out[k].path));
    }
}

/// Resolution only ever appends fragments whose paths are new: absent from
/// the accumulated list, absent from the in-progress set, and pairwise
/// distinct. This is the de-duplication guarantee: a fragment reachable
/// along several reference chains is kept only at its first encounter.
pub proof fn lemma_resolve_unique(
    parent: Seq<char>,
    refs: Seq<Seq<char>>,
    arena: Seq<NodeV>,
    acc: Seq<NodeV>,
    visiting: Set<Seq<char>>,
)
    ensures
        match s_resolve(parent, refs, arena, acc, visiting) {
            ResolveOutcome::Done(out) => extends_unique(acc, out, visiting),
            ResolveOutcome::Fail(_) => true,
        },
    decreases node_paths(arena).difference(visiting).len(), refs.len(),
{
    if refs.len() == 0 {
    } else {
        let p = spec_normalized_path(parent, refs[0]);
        if has_path(acc, p) {
            lemma_resolve_unique(parent, refs.drop_first(), arena, acc, visiting);
        } else if visiting.contains(p) {
        } else if find_node(arena, p) < arena.len() {
            let node = arena[find_node(arena, p)];
            lemma_find_node(arena, p);
            assert(arena.map_values(|n: NodeV| n.path)[find_node(arena, p)] == p);
            assert(node_paths(arena).contains(p));
            lemma_unvisited_dec(arena, visiting, p);
            lemma_resolve_unique(p, refs_of(node), arena, acc, visiting.insert(p));
            match s_resolve(p, refs_of(node), arena, acc, visiting.insert(p)) {
                ResolveOutcome::Done(a2) => {
                    lemma_extends_weaken(acc, a2, visiting, p);
                    let mid = a2.push(node);
                    assert(node.path == p);
                    assert(extends_unique(acc, mid, visiting)) by {
                        assert(forall|i: int| 0 <= i < acc.len() ==> mid[i] == acc[i]);
                        assert forall|k: int|
                            acc.len() <= k < mid.len() implies !has_path(
                            acc,
                            (#[trigger] mid[k]).path,
                        ) && !visiting.contains(mid[k].path) by {
                            if k < a2.len() {
                                assert(mid[k] == a2[k]);
                            } else {
                                assert(mid[k] == node);
                            }
                        }
                        assert forall|k: int, m: int|
                            acc.len() <= m < k < mid.len() implies (#[trigger] mid[m]).path != (
                        #[trigger] mid[k]).path by {
                            if k < a2.len() {
                                assert(mid[m] == a2[m]);
                                assert(mid[k] == a2[k]);
                            } else {
                                assert(mid[k] == node);
                                assert(mid[m] == a2[m]);
                                assert(a2[m].path != p);
                            }
                        }
                    }
                    lemma_resolve_unique(parent, refs.drop_first(), arena, mid, visiting);
                    match s_resolve(parent, refs.drop_first(), arena, mid, visiting) {
                        ResolveOutcome::Done(out) => {
                            lemma_extends_trans(acc, mid, out, visiting);
                        },
                        ResolveOutcome::Fail(_) => {},
                    }
                },
                ResolveOutcome::Fail(_) => {},
            }
        }
    }
}

/// Diamond de-duplication: in a fully resolved descendant list every origin
/// path appears exactly once, at the position of its first encounter, and
/// never repeats the root's own path.
pub proof fn lemma_children_unique(root: NodeV, arena: Seq<NodeV>)
    ensures
        match s_resolve_root(root, arena) {
            ResolveOutcome::Done(ns) => {
                &&& forall|i: int, j: int|
                    0 <= i < j < ns.len() ==> (#[trigger] ns[i]).path != (#[trigger] ns[j]).path
                &&& forall|i: int| 0 <= i < ns.len() ==> (#[trigger] ns[i]).path != root.path
            },
            ResolveOutcome::Fail(_) => true,
        },
{
    let visiting = Set::empty().insert(root.path);
    lemma_resolve_unique(root.path, refs_of(root), arena, Seq::empty(), visiting);
    match s_resolve_root(root, arena) {
        ResolveOutcome::Done(ns) => {
            assert(extends_unique(Seq::empty(), ns, visiting));
            assert forall|i: int, j: int|
                0 <= i < j < ns.len() implies (#[trigger] ns[i]).path != (#[trigger] ns[j]).path by {
                assert(ns[i].path != ns[j].path);
            }
            assert forall|i: int| 0 <= i < ns.len() implies (#[trigger] ns[i]).path
                != root.path by {
                assert(!visiting.contains(ns[i].path));
            }
        },
        ResolveOutcome::Fail(_) => {},
    }
}

/// Whether some fragment in the list carries the given path.
fn contains_path(ns: &Vec<Mixin>, p: &str) -> (r: bool)
    ensures
        r == has_path(nodes_view(ns@), p@),
{
    let n = ns.len();
    let mut i: usize = 0;
    while i < n
        invariant
            0 <= i <= n,
            n == ns@.len(),
            forall|j: int| 0 <= j < i ==> nodes_view(ns@)[j].path != p@,
        decreases n - i,
    {
        if str_eq(ns[i].path.as_str(), p) {
            proof {
                assert(nodes_view(ns@)[i as int].path == p@);
            }
            return true;
        }
        proof {
            assert(nodes_view(ns@)[i as int].path == ns@[i as int].path@);
        }
        i += 1;
    }
    proof {
        if has_path(nodes_view(ns@), p@) {
            let j = choose|j: int|
                0 <= j < nodes_view(ns@).len() && nodes_view(ns@)[j].path == p@;
            assert(nodes_view(ns@)[j].path != p@);
        }
    }
    false
}

/// Index of the first fragment with the given path, if any.
fn find_node_vec(arena: &Vec<Mixin>, p: &str) -> (r: Option<usize>)
    ensures
        match r {
            Some(i) => find_node(nodes_view(arena@), p@) == i && i < arena@.len(),
            None => find_node(nodes_view(arena@), p@) == nodes_view(arena@).len(),
        },
{
    let n = arena.len();
    let mut i: usize = 0;
    while i < n
        invariant
            0 <= i <= n,
            n == arena@.len(),
            forall|j: int| 0 <= j < i ==> nodes_view(arena@)[j].path != p@,
        decreases n - i,
    {
        if str_eq(arena[i].path.as_str(), p) {
            proof {
                assert(nodes_view(arena@)[i as int].path == p@);
                lemma_find_node_at(nodes_view(arena@), p@, i as int);
            }
            return Some(i);
        }
        proof {
            assert(nodes_view(arena@)[i as int].path == arena@[i as int].path@);
        }
        i += 1;
    }
    proof {
        lemma_find_node_at(nodes_view(arena@), p@, n as int);
    }
    None
}

/// A copy of the environment list, equal at the model level.
fn clone_env(v: &Vec<(String, String)>) -> (r: Vec<(String, String)>)
    ensures
        r.deep_view() == v.deep_view(),
{
    let n = v.len();
    let mut r: Vec<(String, String)> = Vec::new();
    let mut i: usize = 0;
    proof {
        assert(r.deep_view() =~= v.deep_view().take(0));
    }
    while i < n
        invariant
            0 <= i <= n,
            n == v@.len(),
            r.deep_view() == v.deep_view().take(i as int),
        decreases n - i,
    {
        let ghost pre = r.deep_view();
        let k = v[i].0.clone();
        let w = v[i].1.clone();
        r.push((k, w));
        proof {
            assert(r.deep_view() =~= pre.push(v.deep_view()[i as int]));
            assert(v.deep_view().take(i + 1) =~= pre.push(v.deep_view()[i as int]));
        }
        i += 1;
    }
    proof {
        assert(v.deep_view().take(n as int) =~= v.deep_view());
    }
    r
}

/// A copy of a metadata block, equal at the model level.
fn clone_yaml(y: &MixinYaml) -> (r: MixinYaml)
    ensures
        r@ == y@,
{
    let base = match &y.base {
        Some(s) => Some(s.clone()),
        None => None,
    };
    let install = match &y.install {
        Some(v) => {
            let c = v.clone();
            proof {
                assert(c.deep_view() =~= v.deep_view());
            }
            Some(c)
        },
        None => None,
    };
    let mixin = match &y.mixin {
        Some(v) => {
            let c = v.clone();
            proof {
                assert(c.deep_view() =~= v.deep_view());
            }
            Some(c)
        },
        None => None,
    };
    let publish = match &y.publish {
        Some(v) => {
            let c = v.clone();
            proof {
                assert(c.deep_view() =~= v.deep_view());
            }
            Some(c)
        },
        None => None,
    };
    let volume = match &y.volume {
        Some(v) => {
            let c = v.clone();
            proof {
                assert(c.deep_view() =~= v.deep_view());
            }
            Some(c)
        },
        None => None,
    };
    let env = match &y.env {
        Some(v) => Some(clone_env(v)),
        None => None,
    };
    let r = MixinYaml { base, install, mixin, publish, volume, env };
    proof {
        assert(r@.base == y@.base);
        assert(r@.install == y@.install);
        assert(r@.mixin == y@.mixin);
        assert(r@.publish == y@.publish);
        assert(r@.volume == y@.volume);
        assert(r@.env == y@.env);
    }
    r
}

/// A copy of a fragment without its descendants, equal at the node level.
fn duplicate_flat(m: &Mixin) -> (r: Mixin)
    ensures
        r@ == m@,
        r.children@.len() == 0,
{
    Mixin {
        path: m.path.clone(),
        yaml: clone_yaml(&m.yaml),
        children: Vec::new(),
        script: match &m.script {
            Some(s) => Some(s.clone()),
            None => None,
        },
    }
}

/// Resolves `refs[idx..]` against the loaded set, appending each resolved
/// fragment (descendants first) to `acc`.
fn resolve_refs(
    parent: &str,
    refs: &Vec<String>,
    idx: usize,
    arena: &Vec<Mixin>,
    acc: &mut Vec<Mixin>,
    visiting: &mut Vec<String>,
) -> (r: Result<(), ResolveError>)
    requires
        idx <= refs@.len(),
    ensures
        match s_resolve(
            parent@,
            refs.deep_view().skip(idx as int),
            nodes_view(arena@),
            nodes_view(old(acc)@),
            old(visiting).deep_view().to_set(),
        ) {
            ResolveOutcome::Done(ns) => {
                &&& r is Ok
                &&& nodes_view(final(acc)@) == ns
                &&& final(visiting).deep_view() == old(visiting).deep_view()
                &&& old(acc)@.len() <= final(acc)@.len()
                &&& forall|i: int| 0 <= i < old(acc)@.len() ==> final(acc)@[i] == old(acc)@[i]
                &&& forall|i: int|
                    old(acc)@.len() <= i < final(acc)@.len() ==> (#[trigger] final(acc)@[i])
                        .children@.len() == 0
            },
            ResolveOutcome::Fail(e) => r matches Err(e2) && e2@ == e,
        },
    decreases
            node_paths(nodes_view(arena@)).difference(visiting.deep_view().to_set()).len(),
            refs@.len() - idx,
{
    let ghost srefs = refs.deep_view().skip(idx as int);
    let ghost vis0 = visiting.deep_view();
    if idx == refs.len() {
        proof {
            assert(srefs.len() == 0);
        }
        return Ok(());
    }
    proof {
        assert(srefs[0] == refs.deep_view()[idx as int]);
        assert(refs.deep_view()[idx as int] == refs@[idx as int]@);
        assert(srefs.drop_first() =~= refs.deep_view().skip(idx + 1));
    }
    let p = normalized_path(parent, refs[idx].as_str());
    let ghost pv = p@;
    if contains_path(acc, p.as_str()) {
        return resolve_refs(parent, refs, idx + 1, arena, acc, visiting);
    }
    if vec_contains_str(visiting, p.as_str()) {
        proof {
            assert(vis0.to_set().contains(pv));
        }
        return Err(ResolveError::CyclicReference(p));
    }
    proof {
        if vis0.to_set().contains(pv) {
            assert(vis0.contains(pv));
        }
    }
    match find_node_vec(arena, p.as_str()) {
        Some(i) => {
            let node_path = arena[i].path.clone();
            proof {
                lemma_find_node(nodes_view(arena@), pv);
                assert(nodes_view(arena@)[i as int].path == pv);
                assert(node_path@ == pv);
            }
            visiting.push(p);
            proof {
                assert(visiting.deep_view() =~= vis0.push(pv));
                lemma_push_to_set(vis0, pv);
                assert(visiting.deep_view().to_set() =~= vis0.to_set().insert(pv));
                assert(nodes_view(arena@).map_values(|n: NodeV| n.path)[i as int] == pv);
                assert(node_paths(nodes_view(arena@)).contains(pv));
                lemma_unvisited_dec(nodes_view(arena@), vis0.to_set(), pv);
            }
            let ghost acc0 = nodes_view(acc@);
            let ghost node = nodes_view(arena@)[i as int];
            let child_res = match &arena[i].yaml.mixin {
                Some(rs) => {
                    proof {
                        assert(refs_of(node) == rs.deep_view());
                        assert(rs.deep_view().skip(0) =~= rs.deep_view());
                    }
                    resolve_refs(node_path.as_str(), rs, 0, arena, acc, visiting)
                },
                None => {
                    proof {
                        assert(refs_of(node).len() == 0);
                    }
                    Ok(())
                },
            };
            match child_res {
                Err(e) => {
                    return Err(e);
                },
                Ok(()) => {},
            }
            proof {
                let childspec = s_resolve(
                    pv,
                    refs_of(node),
                    nodes_view(arena@),
                    acc0,
                    vis0.to_set().insert(pv),
                );
                assert(childspec is Done);
                assert(visiting.deep_view() == vis0.push(pv));
            }
            let ghost prepop = visiting@;
            let _popped = visiting.pop();
            proof {
                assert(prepop.len() == vis0.len() + 1);
                assert(visiting@ == prepop.subrange(0, prepop.len() - 1));
                assert forall|j: int| 0 <= j < vis0.len() implies visiting.deep_view()[j]
                    == vis0[j] by {
                    assert(visiting@[j] == prepop[j]);
                    assert(prepop[j]@ == vis0.push(pv)[j]);
                }
                assert(visiting.deep_view() =~= vis0);
            }
            let ghost accmid = nodes_view(acc@);
            let dup = duplicate_flat(&arena[i]);
            acc.push(dup);
            proof {
                assert(nodes_view(acc@) =~= accmid.push(nodes_view(arena@)[i as int]));
            }
            resolve_refs(parent, refs, idx + 1, arena, acc, visiting)
        },
        None => {
            return Err(ResolveError::MissingMixin(p));
        },
    }
}

impl Mixin {
    /// Resolves this fragment's references into the flat, de-duplicated,
    /// order-preserving list of its transitive descendants: for each
    /// reference in declaration order, the referenced fragment's own
    /// descendants followed by the fragment itself, skipping every fragment
    /// whose path already appears earlier in the accumulating list.
    pub fn resolve_children(&self, arena: &Vec<Mixin>) -> (r: Result<Vec<Mixin>, ResolveError>)
        ensures
            match s_resolve_root(self@, nodes_view(arena@)) {
                ResolveOutcome::Done(ns) => {
                    &&& r matches Ok(cs)
                    &&& nodes_view(cs@) == ns
                    &&& forall|i: int|
                        0 <= i < ns.len() ==> (#[trigger] r->Ok_0@[i]).children@.len() == 0
                },
                ResolveOutcome::Fail(e) => r matches Err(e2) && e2@ == e,
            },
    {
        let mut acc: Vec<Mixin> = Vec::new();
        let mut visiting: Vec<String> = Vec::new();
        visiting.push(self.path.clone());
        proof {
            assert(visiting.deep_view() =~= seq![self.path@]);
            lemma_push_to_set(Seq::<Seq<char>>::empty(), self.path@);
            assert(Seq::<Seq<char>>::empty().push(self.path@) =~= seq![self.path@]);
            assert forall|a: Seq<char>| !Seq::<Seq<char>>::empty().to_set().contains(a) by {}
            assert(Seq::<Seq<char>>::empty().to_set() =~= Set::<Seq<char>>::empty());
            assert(visiting.deep_view().to_set() =~= Set::empty().insert(self.path@));
            assert(nodes_view(acc@) =~= Seq::<NodeV>::empty());
        }
        match &self.yaml.mixin {
            Some(rs) => {
                proof {
                    assert(rs.deep_view().skip(0) =~= rs.deep_view());
                    assert(refs_of(self@) == rs.deep_view());
                }
                match resolve_refs(self.path.as_str(), rs, 0, arena, &mut acc, &mut visiting) {
                    Ok(()) => Ok(acc),
                    Err(e) => Err(e),
                }
            },
            None => {
                proof {
                    assert(refs_of(self@).len() == 0);
                }
                Ok(acc)
            },
        }
    }
}

} // verus!
