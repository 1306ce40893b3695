//! The version-agnostic data model: tracked paths, digest sets, commands,
//! byproducts, and the unified link metadata that the predicate layer
//! projects from.
use vstd::prelude::*;
use vstd::string::StrSliceExecFns;

use crate::codec::{
    chain_ok, char_at_is, chars_to_string, keys_sorted, keys_sorted_from, kv_text, kv_view,
    lemma_kv_text_shape, lemma_lex_trichotomy, lemma_map_insert_sorted, lemma_text_at_char,
    lemma_text_at_concat, lex_lt, map_insert, opt_key_view, parse_kv, parse_quoted, quoted,
    str_lt, text_at, write_kv, write_quoted,
};

verus! {

// ---------------------------------------------------------------------------
// Tracked file paths
// ---------------------------------------------------------------------------

/// A `..` path segment sits at position `i`.
pub open spec fn is_dotdot_at(s: Seq<char>, i: int) -> bool {
    &&& 0 <= i
    &&& i + 2 <= s.len()
    &&& s[i] == '.'
    &&& s[i + 1] == '.'
    &&& (i == 0 || s[i - 1] == '/')
    &&& (i + 2 == s.len() || s[i + 2] == '/')
}

/// A usable tracked path: nonempty, relative (no leading `/`), and without
/// any `..` traversal segment.
pub open spec fn path_valid(s: Seq<char>) -> bool {
    &&& s.len() > 0
    &&& s[0] != '/'
    &&& forall|i: int| !is_dotdot_at(s, i)
}

/// Decides `path_valid` over a character vector.
pub fn path_chars_valid(v: &Vec<char>) -> (r: bool)
    ensures
        r == path_valid(v@),
{
    if v.len() == 0 {
        return false;
    }
    if v[0] == '/' {
        return false;
    }
    let n = v.len();
    let mut i: usize = 0;
    while i < n
        invariant
            i <= n,
            n == v@.len(),
            forall|q: int| q < i ==> !is_dotdot_at(v@, q),
        decreases n - i,
    {
        let two_more = n - i >= 2;
        let hit = two_more && v[i] == '.' && v[i + 1] == '.' && (i == 0 || v[i - 1] == '/') && (n
            - i == 2 || v[i + 2] == '/');
        if hit {
            assert(is_dotdot_at(v@, i as int));
            return false;
        }
        assert(!is_dotdot_at(v@, i as int));
        i = i + 1;
    }
    assert forall|q: int| !is_dotdot_at(v@, q) by {
        if q >= i {
            assert(!(q + 2 <= n));
        }
    }
    true
}

/// A normalized, platform-independent relative path naming a tracked file.
/// Used as a map key; ordered by the canonical key order.
#[derive(Debug, Clone, PartialEq, Eq)]
pub struct VirtualTargetPath {
    path: String,
}

impl View for VirtualTargetPath {
    type V = Seq<char>;

    closed spec fn view(&self) -> Seq<char> {
        self.path@
    }
}

impl VirtualTargetPath {
    /// Every value of this type names a valid relative path.
    pub open spec fn wf(self) -> bool {
        path_valid(self@)
    }

    /// Accepts the string as a tracked path, rejecting absolute paths and
    /// `..` traversal segments.
    pub fn new(path: String) -> (r: Option<VirtualTargetPath>)
        ensures
            r is Some <==> path_valid(path@),
            r matches Some(p) ==> p@ == path@ && p.wf(),
    {
        let chars = crate::codec::str_to_chars(path.as_str());
        if path_chars_valid(&chars) {
            Some(VirtualTargetPath { path })
        } else {
            None
        }
    }

    /// The path as a string slice.
    pub fn as_str(&self) -> (r: &str)
        ensures
            r@ == self@,
    {
        self.path.as_str()
    }
}

// ---------------------------------------------------------------------------
// Maps with canonically sorted string keys
// ---------------------------------------------------------------------------

/// Inserts or replaces, keeping `kv_view` equal to the sorted-insert model.
fn kv_insert_at(entries: &mut Vec<(String, String)>, i: usize, k: String, v: String)
    requires
        i <= old(entries)@.len(),
    ensures
        kv_view(final(entries)@) == kv_view(old(entries)@).take(i as int) + map_insert(
            kv_view(old(entries)@).skip(i as int),
            k@,
            v@,
        ),
    decreases old(entries)@.len() - i,
{
    let ghost ov = kv_view(entries@);
    if i == entries.len() {
        let ghost kk = k@;
        let ghost vv = v@;
        entries.push((k, v));
        proof {
            assert(kv_view(entries@) =~= ov.take(i as int) + map_insert(
                ov.skip(i as int),
                kk,
                vv,
            )) by {
                assert(ov.skip(i as int) =~= Seq::<(Seq<char>, Seq<char>)>::empty());
                assert(ov.take(i as int) =~= ov);
            }
        }
    } else if str_lt(k.as_str(), entries[i].0.as_str()) {
        let ghost kk = k@;
        let ghost vv = v@;
        entries.insert(i, (k, v));
        proof {
            assert(lex_lt(kk, ov.skip(i as int)[0].0));
            assert(map_insert(ov.skip(i as int), kk, vv) == seq![(kk, vv)] + ov.skip(i as int));
            assert(kv_view(entries@) =~= ov.take(i as int) + (seq![(kk, vv)] + ov.skip(i as int)));
        }
    } else if k == entries[i].0 {
        let ghost kk = k@;
        let ghost vv = v@;
        proof {
            lemma_lex_trichotomy(kk, ov.skip(i as int)[0].0);
        }
        entries.set(i, (k, v));
        proof {
            assert(kk == ov.skip(i as int)[0].0);
            assert(map_insert(ov.skip(i as int), kk, vv) == seq![(kk, vv)] + ov.skip(
                i as int,
            ).drop_first());
            assert(kv_view(entries@) =~= ov.take(i as int) + (seq![(kk, vv)] + ov.skip(
                i as int,
            ).drop_first()));
        }
    } else {
        let ghost kk = k@;
        let ghost vv = v@;
        proof {
            lemma_lex_trichotomy(kk, ov.skip(i as int)[0].0);
            assert(!lex_lt(kk, ov.skip(i as int)[0].0) && kk != ov.skip(i as int)[0].0);
            assert(map_insert(ov.skip(i as int), kk, vv) == seq![ov.skip(i as int)[0]] + map_insert(
                ov.skip(i as int).drop_first(),
                kk,
                vv,
            ));
            assert(ov.skip(i as int).drop_first() =~= ov.skip(i + 1));
        }
        kv_insert_at(entries, i + 1, k, v);
        proof {
            assert(kv_view(entries@) =~= ov.take(i as int) + (seq![ov.skip(i as int)[0]]
                + map_insert(ov.skip(i + 1), kk, vv))) by {
                assert(kv_view(entries@) == ov.take(i + 1) + map_insert(ov.skip(i + 1), kk, vv));
                assert(ov.take(i + 1) =~= ov.take(i as int) + seq![ov.skip(i as int)[0]]);
            }
        }
    }
}

/// A mapping from strings to strings with unique keys held in the canonical
/// (strictly ascending) order, so that encoding never depends on insertion
/// order.  Used for environments and for digest sets.
#[derive(Debug, Clone, PartialEq, Eq)]
pub struct StrMap {
    entries: Vec<(String, String)>,
}

impl View for StrMap {
    type V = Seq<(Seq<char>, Seq<char>)>;

    closed spec fn view(&self) -> Seq<(Seq<char>, Seq<char>)> {
        kv_view(self.entries@)
    }
}

impl StrMap {
    /// Keys strictly ascend.
    pub open spec fn wf(self) -> bool {
        keys_sorted(self@)
    }

    /// The empty map.
    pub fn new() -> (r: StrMap)
        ensures
            r@ == Seq::<(Seq<char>, Seq<char>)>::empty(),
            r.wf(),
    {
        let r = StrMap { entries: Vec::new() };
        proof {
            assert(r@ =~= Seq::<(Seq<char>, Seq<char>)>::empty());
        }
        r
    }

    /// Inserts `k -> v`, replacing any existing binding for `k`; the keys
    /// stay in canonical order.
    pub fn insert(&mut self, k: String, v: String)
        requires
            old(self).wf(),
        ensures
            final(self)@ == map_insert(old(self)@, k@, v@),
            final(self).wf(),
    {
        proof {
            lemma_map_insert_sorted(self@, k@, v@);
        }
        kv_insert_at(&mut self.entries, 0, k, v);
        proof {
            assert(self@ =~= map_insert(old(self)@, k@, v@)) by {
                assert(old(self)@.take(0) =~= Seq::<(Seq<char>, Seq<char>)>::empty());
                assert(old(self)@.skip(0) =~= old(self)@);
            }
        }
    }

    /// Number of bindings.
    pub fn len(&self) -> (r: usize)
        ensures
            r == self@.len(),
    {
        self.entries.len()
    }

    /// Internal access for the canonical codec.
    pub(crate) fn entries(&self) -> (r: &Vec<(String, String)>)
        ensures
            kv_view(r@) == self@,
    {
        &self.entries
    }

    /// Wraps parsed, already-sorted entries.
    pub(crate) fn from_entries(entries: Vec<(String, String)>) -> (r: StrMap)
        ensures
            r@ == kv_view(entries@),
    {
        StrMap { entries }
    }
}

/// The content hashes of one tracked file: digest algorithm name to
/// lower-case hex digest.  Unknown algorithms are carried opaquely.
pub type TargetDescription = StrMap;

// ---------------------------------------------------------------------------
// Commands and byproducts
// ---------------------------------------------------------------------------

/// The executed command line.  The canonical form is a single string: a
/// caller that has an argument list joins it with single spaces before
/// constructing the command.
#[derive(Debug, Clone, PartialEq, Eq)]
pub struct Command {
    line: String,
}

impl View for Command {
    type V = Seq<char>;

    closed spec fn view(&self) -> Seq<char> {
        self.line@
    }
}

impl Command {
    /// Wraps a command line.
    pub fn new(line: String) -> (r: Command)
        ensures
            r@ == line@,
    {
        Command { line }
    }

    /// The command line as a string slice.
    pub fn as_str(&self) -> (r: &str)
        ensures
            r@ == self@,
    {
        self.line.as_str()
    }
}

/// Ghost shape of a `ByProducts` value.
pub struct ByProductsView {
    pub return_value: int,
    pub stdout: Seq<char>,
    pub stderr: Seq<char>,
}

/// What the executed command produced on its standard streams, and its exit
/// status.  A plain value type: any integer return value and any strings.
#[derive(Debug, Clone, PartialEq, Eq)]
pub struct ByProducts {
    return_value: i64,
    stdout: String,
    stderr: String,
}

impl View for ByProducts {
    type V = ByProductsView;

    closed spec fn view(&self) -> ByProductsView {
        ByProductsView {
            return_value: self.return_value as int,
            stdout: self.stdout@,
            stderr: self.stderr@,
        }
    }
}

impl ByProducts {
    /// The empty instance: return value `0`, empty streams.
    pub fn new() -> (r: ByProducts)
        ensures
            r@.return_value == 0,
            r@.stdout == Seq::<char>::empty(),
            r@.stderr == Seq::<char>::empty(),
    {
        let r = ByProducts { return_value: 0, stdout: String::new(), stderr: String::new() };
        proof {
            assert(r@.stdout =~= Seq::<char>::empty());
            assert(r@.stderr =~= Seq::<char>::empty());
        }
        r
    }

    /// Wraps captured streams and an exit status.
    pub fn from_parts(return_value: i64, stdout: String, stderr: String) -> (r: ByProducts)
        ensures
            r@.return_value == return_value as int,
            r@.stdout == stdout@,
            r@.stderr == stderr@,
    {
        ByProducts { return_value, stdout, stderr }
    }

    /// The captured exit status.
    pub fn return_value(&self) -> (r: i64)
        ensures
            r as int == self@.return_value,
    {
        self.return_value
    }

    /// The captured standard output.
    pub fn stdout(&self) -> (r: &str)
        ensures
            r@ == self@.stdout,
    {
        self.stdout.as_str()
    }

    /// The captured standard error.
    pub fn stderr(&self) -> (r: &str)
        ensures
            r@ == self@.stderr,
    {
        self.stderr.as_str()
    }
}

// ---------------------------------------------------------------------------
// Materials: tracked paths mapped to their digest sets
// ---------------------------------------------------------------------------

/// Deep view of material entries.
pub open spec fn mats_view(v: Seq<(VirtualTargetPath, StrMap)>) -> Seq<
    (Seq<char>, Seq<(Seq<char>, Seq<char>)>),
> {
    v.map(|i: int, e: (VirtualTargetPath, StrMap)| (e.0@, e.1@))
}

/// Every entry names a valid path and a canonically sorted digest set.
pub open spec fn mats_ok(m: Seq<(Seq<char>, Seq<(Seq<char>, Seq<char>)>)>) -> bool {
    forall|q: int|
        0 <= q < m.len() ==> path_valid(#[trigger] m[q].0) && keys_sorted(m[q].1)
}

/// Canonical text of one `"path":{digests}` entry.
pub open spec fn mat_entry_text(e: (Seq<char>, Seq<(Seq<char>, Seq<char>)>)) -> Seq<char> {
    quoted(e.0) + seq![':'] + kv_text(e.1)
}

/// Text following the first material entry.
pub open spec fn mat_tail_text(m: Seq<(Seq<char>, Seq<(Seq<char>, Seq<char>)>)>) -> Seq<char>
    decreases m.len(),
{
    if m.len() == 0 {
        seq!['}']
    } else {
        seq![','] + mat_entry_text(m[0]) + mat_tail_text(m.drop_first())
    }
}

/// Canonical text of a whole materials object.
pub open spec fn mat_text(m: Seq<(Seq<char>, Seq<(Seq<char>, Seq<char>)>)>) -> Seq<char> {
    if m.len() == 0 {
        seq!['{', '}']
    } else {
        seq!['{'] + mat_entry_text(m[0]) + mat_tail_text(m.drop_first())
    }
}

/// Text of a nonempty run of material entries.
pub open spec fn mat_entries_text(m: Seq<(Seq<char>, Seq<(Seq<char>, Seq<char>)>)>) -> Seq<char>
    recommends
        m.len() > 0,
{
    mat_entry_text(m[0]) + mat_tail_text(m.drop_first())
}

pub proof fn lemma_mat_tail_shape(m: Seq<(Seq<char>, Seq<(Seq<char>, Seq<char>)>)>)
    ensures
        mat_tail_text(m).len() >= 1,
        m.len() == 0 ==> mat_tail_text(m) == seq!['}'],
        m.len() > 0 ==> mat_tail_text(m)[0] == ',',
{
    if m.len() == 0 {
        assert(mat_tail_text(m) =~= seq!['}']);
    } else {
        assert(mat_tail_text(m)[0] == (seq![','] + mat_entry_text(m[0]) + mat_tail_text(
            m.drop_first(),
        ))[0]);
    }
}

pub proof fn lemma_mat_text_shape(m: Seq<(Seq<char>, Seq<(Seq<char>, Seq<char>)>)>)
    ensures
        mat_text(m).len() >= 2,
        mat_text(m)[0] == '{',
        m.len() == 0 ==> mat_text(m) == seq!['{', '}'],
        m.len() > 0 ==> mat_text(m)[1] == '"',
{
    if m.len() == 0 {
        assert(mat_text(m) =~= seq!['{', '}']);
    } else {
        lemma_mat_tail_shape(m.drop_first());
        assert(mat_text(m)[0] == '{');
        assert(mat_text(m)[1] == mat_entry_text(m[0])[0]);
        assert(mat_entry_text(m[0])[0] == quoted(m[0].0)[0]);
    }
}

/// Decomposes a match of one `"path":{digests}` entry.
proof fn lemma_mat_entry_decompose(t: Seq<char>, j: int, e: (Seq<char>, Seq<(Seq<char>, Seq<char>)>))
    requires
        text_at(t, j, mat_entry_text(e)),
    ensures
        text_at(t, j, quoted(e.0)),
        ({
            let jk = j + quoted(e.0).len();
            &&& jk < t.len()
            &&& t[jk] == ':'
            &&& text_at(t, jk + 1, kv_text(e.1))
            &&& mat_entry_text(e).len() == quoted(e.0).len() + 1 + kv_text(e.1).len()
        }),
{
    assert(mat_entry_text(e) =~= quoted(e.0) + (seq![':'] + kv_text(e.1)));
    lemma_text_at_concat(t, j, quoted(e.0), seq![':'] + kv_text(e.1));
    let jk = j + quoted(e.0).len();
    lemma_text_at_concat(t, jk, seq![':'], kv_text(e.1));
    lemma_text_at_char(t, jk, seq![':'], 0);
    lemma_kv_text_shape(e.1);
}

/// Glues one material entry and a continuation back into an entry run.
proof fn lemma_mat_entries_assemble(
    t: Seq<char>,
    j: int,
    e0: (Seq<char>, Seq<(Seq<char>, Seq<char>)>),
    je: int,
    tailv: Seq<(Seq<char>, Seq<(Seq<char>, Seq<char>)>)>,
)
    requires
        text_at(t, j, mat_entry_text(e0)),
        je == j + mat_entry_text(e0).len(),
        text_at(t, je, mat_tail_text(tailv)),
    ensures
        text_at(t, j, mat_entries_text(seq![e0] + tailv)),
        mat_entries_text(seq![e0] + tailv).len() == mat_entry_text(e0).len() + mat_tail_text(
            tailv,
        ).len(),
        (seq![e0] + tailv)[0] == e0,
        (seq![e0] + tailv).drop_first() == tailv,
{
    let m = seq![e0] + tailv;
    assert(m[0] == e0);
    assert(m.drop_first() =~= tailv);
    assert(mat_entries_text(m) =~= mat_entry_text(e0) + mat_tail_text(tailv));
    lemma_text_at_concat(t, j, mat_entry_text(e0), mat_tail_text(tailv));
}

/// Reads one `"path":{digests}` entry, validating the path.
#[verifier::rlimit(60)]
fn parse_mat_entry(t: &Vec<char>, j: usize) -> (r: Option<
    ((VirtualTargetPath, StrMap), Vec<char>, usize),
>)
    requires
        j <= t@.len(),
    ensures
        r matches Some(p) ==> j < p.2 <= t@.len() && p.1@ == p.0.0@ && p.0.0.wf() && p.0.1.wf()
            && text_at(t@, j as int, mat_entry_text((p.0.0@, p.0.1@))) && p.2 == j + mat_entry_text(
            (p.0.0@, p.0.1@),
        ).len(),
        forall|e: (Seq<char>, Seq<(Seq<char>, Seq<char>)>)|
            (path_valid(e.0) && keys_sorted(e.1) && text_at(t@, j as int, mat_entry_text(e))) ==> (
            r matches Some(p) && p.0.0@ == e.0 && p.0.1@ == e.1 && p.2 == j + mat_entry_text(
                e,
            ).len()),
{
    let ghost ti = t@;
    proof {
        assert forall|e: (Seq<char>, Seq<(Seq<char>, Seq<char>)>)|
            text_at(ti, j as int, mat_entry_text(e)) implies text_at(
            ti,
            j as int,
            quoted(e.0),
        ) by {
            lemma_mat_entry_decompose(ti, j as int, e);
        }
    }
    let rk = parse_quoted(t, j);
    let (kc, jk) = match rk {
        None => {
            return None;
        },
        Some(p) => p,
    };
    proof {
        assert forall|e: (Seq<char>, Seq<(Seq<char>, Seq<char>)>)|
            text_at(ti, j as int, mat_entry_text(e)) implies (e.0 == kc@ && jk < ti.len()
            && ti[jk as int] == ':' && text_at(ti, jk + 1, kv_text(e.1))) by {
            lemma_mat_entry_decompose(ti, j as int, e);
        }
    }
    if !path_chars_valid(&kc) {
        return None;
    }
    if jk == t.len() {
        return None;
    }
    if !char_at_is(t, jk, ':') {
        return None;
    }
    let rv = parse_kv(t, jk + 1);
    match rv {
        None => None,
        Some((entries, jv)) => {
            let ks = chars_to_string(&kc);
            let path = VirtualTargetPath { path: ks };
            let digests = StrMap::from_entries(entries);
            proof {
                assert(ti.subrange(jk as int, jk + 1) =~= seq![':']);
                lemma_text_at_concat(ti, jk as int, seq![':'], kv_text(digests@));
                lemma_text_at_concat(ti, j as int, quoted(kc@), seq![':'] + kv_text(digests@));
                assert(quoted(kc@) + (seq![':'] + kv_text(digests@)) =~= mat_entry_text(
                    (kc@, digests@),
                ));
            }
            Some(((path, digests), kc, jv))
        },
    }
}

/// Reads a nonempty run of material entries followed by the closing brace,
/// path keys strictly ascending (above `prev`, when one is given).
#[verifier::rlimit(100)]
#[verifier::spinoff_prover]
fn parse_mat_entries(t: &Vec<char>, j: usize, prev: Option<&Vec<char>>) -> (r: Option<
    (Vec<(VirtualTargetPath, StrMap)>, usize),
>)
    requires
        j <= t@.len(),
    ensures
        r matches Some(p) ==> j < p.1 <= t@.len() && mats_view(p.0@).len() > 0 && chain_ok(
            opt_key_view(prev),
            mats_view(p.0@),
        ) && mats_ok(mats_view(p.0@)) && text_at(
            t@,
            j as int,
            mat_entries_text(mats_view(p.0@)),
        ) && p.1 == j + mat_entries_text(mats_view(p.0@)).len(),
        forall|m: Seq<(Seq<char>, Seq<(Seq<char>, Seq<char>)>)>|
            (m.len() > 0 && chain_ok(opt_key_view(prev), m) && mats_ok(m) && text_at(
                t@,
                j as int,
                mat_entries_text(m),
            )) ==> (r matches Some(p) && mats_view(p.0@) == m && p.1 == j + mat_entries_text(
                m,
            ).len()),
    decreases t@.len() - j,
{
    let ghost ti = t@;
    proof {
        assert forall|m: Seq<(Seq<char>, Seq<(Seq<char>, Seq<char>)>)>|
            (m.len() > 0 && mats_ok(m) && text_at(ti, j as int, mat_entries_text(m))) implies (
        path_valid(m[0].0) && keys_sorted(m[0].1) && text_at(
            ti,
            j as int,
            mat_entry_text((m[0].0, m[0].1)),
        ) && text_at(
            ti,
            j + mat_entry_text((m[0].0, m[0].1)).len(),
            mat_tail_text(m.drop_first()),
        )) by {
            assert(mat_entries_text(m) =~= mat_entry_text(m[0]) + mat_tail_text(m.drop_first()));
            lemma_text_at_concat(ti, j as int, mat_entry_text(m[0]), mat_tail_text(m.drop_first()));
            assert((m[0].0, m[0].1) == m[0]);
        }
    }
    let re = parse_mat_entry(t, j);
    let (entry, kc, je) = match re {
        None => {
            return None;
        },
        Some(p) => p,
    };
    let ghost e0 = (kc@, entry.1@);
    proof {
        assert forall|m: Seq<(Seq<char>, Seq<(Seq<char>, Seq<char>)>)>|
            (m.len() > 0 && mats_ok(m) && text_at(ti, j as int, mat_entries_text(m))) implies (m[0]
            == e0 && text_at(ti, je as int, mat_tail_text(m.drop_first())) && mat_entries_text(
            m,
        ).len() == mat_entry_text(e0).len() + mat_tail_text(m.drop_first()).len()) by {
            assert(mat_entries_text(m) =~= mat_entry_text(m[0]) + mat_tail_text(m.drop_first()));
            lemma_text_at_concat(ti, j as int, mat_entry_text(m[0]), mat_tail_text(m.drop_first()));
            assert((m[0].0, m[0].1) == m[0]);
        }
    }
    let sorted_ok = match prev {
        None => true,
        Some(p) => crate::codec::chars_lt(p, &kc),
    };
    if !sorted_ok {
        return None;
    }
    if je == t.len() {
        proof {
            assert forall|m: Seq<(Seq<char>, Seq<(Seq<char>, Seq<char>)>)>|
                !(m.len() > 0 && mats_ok(m) && text_at(ti, j as int, mat_entries_text(m))) by {
                if m.len() > 0 && mats_ok(m) && text_at(ti, j as int, mat_entries_text(m)) {
                    lemma_mat_tail_shape(m.drop_first());
                }
            }
        }
        return None;
    }
    if char_at_is(t, je, '}') {
        let mut res: Vec<(VirtualTargetPath, StrMap)> = Vec::new();
        res.push(entry);
        proof {
            let mv = mats_view(res@);
            assert(mv =~= seq![e0] + Seq::<(Seq<char>, Seq<(Seq<char>, Seq<char>)>)>::empty());
            assert(mat_tail_text(Seq::<(Seq<char>, Seq<(Seq<char>, Seq<char>)>)>::empty())
                =~= seq!['}']);
            assert(ti.subrange(je as int, je + 1) =~= seq!['}']);
            lemma_mat_entries_assemble(
                ti,
                j as int,
                e0,
                je as int,
                Seq::<(Seq<char>, Seq<(Seq<char>, Seq<char>)>)>::empty(),
            );
            assert(mv[0] == e0);
            assert(mv.drop_first() =~= Seq::<(Seq<char>, Seq<(Seq<char>, Seq<char>)>)>::empty());
            assert(keys_sorted_from(kc@, mv.drop_first()));
            match prev {
                Some(p) => {
                    assert(lex_lt(p@, kc@));
                    assert(keys_sorted_from(p@, mv));
                },
                None => {
                    assert(keys_sorted(mv));
                },
            }
            assert(mats_ok(mv)) by {
                assert(forall|q: int| 0 <= q < mv.len() ==> mv[q] == e0);
            }
            assert forall|m: Seq<(Seq<char>, Seq<(Seq<char>, Seq<char>)>)>|
                (m.len() > 0 && mats_ok(m) && text_at(
                    ti,
                    j as int,
                    mat_entries_text(m),
                )) implies m == mv by {
                lemma_mat_tail_shape(m.drop_first());
                if m.len() > 1 {
                    lemma_text_at_char(ti, je as int, mat_tail_text(m.drop_first()), 0);
                }
                assert(m.len() == 1);
                assert(m =~= mv);
            }
        }
        return Some((res, je + 1));
    }
    if !char_at_is(t, je, ',') {
        proof {
            assert forall|m: Seq<(Seq<char>, Seq<(Seq<char>, Seq<char>)>)>|
                !(m.len() > 0 && mats_ok(m) && text_at(ti, j as int, mat_entries_text(m))) by {
                if m.len() > 0 && mats_ok(m) && text_at(ti, j as int, mat_entries_text(m)) {
                    lemma_mat_tail_shape(m.drop_first());
                    lemma_text_at_char(ti, je as int, mat_tail_text(m.drop_first()), 0);
                }
            }
        }
        return None;
    }
    // more entries follow
    proof {
        assert forall|m: Seq<(Seq<char>, Seq<(Seq<char>, Seq<char>)>)>|
            (m.len() > 1 && text_at(ti, je as int, mat_tail_text(m.drop_first()))) implies text_at(
            ti,
            je + 1,
            mat_entries_text(m.drop_first()),
        ) by {
            assert(mat_tail_text(m.drop_first()) =~= seq![','] + mat_entries_text(m.drop_first()));
            lemma_text_at_concat(ti, je as int, seq![','], mat_entries_text(m.drop_first()));
        }
        assert forall|m: Seq<(Seq<char>, Seq<(Seq<char>, Seq<char>)>)>|
            (m.len() > 0 && mats_ok(m) && text_at(
                ti,
                j as int,
                mat_entries_text(m),
            )) implies m.len() > 1 && mats_ok(m.drop_first()) by {
            lemma_mat_tail_shape(m.drop_first());
            if m.len() == 1 {
                lemma_text_at_char(ti, je as int, mat_tail_text(m.drop_first()), 0);
            }
            assert forall|q: int|
                0 <= q < m.drop_first().len() implies path_valid(
                #[trigger] m.drop_first()[q].0,
            ) && keys_sorted(m.drop_first()[q].1) by {
                assert(m.drop_first()[q] == m[q + 1]);
                assert(path_valid(m[q + 1].0) && keys_sorted(m[q + 1].1));
            }
        }
    }
    let rec = parse_mat_entries(t, je + 1, Some(&kc));
    match rec {
        None => {
            proof {
                assert forall|m: Seq<(Seq<char>, Seq<(Seq<char>, Seq<char>)>)>|
                    !(m.len() > 0 && chain_ok(opt_key_view(prev), m) && mats_ok(m) && text_at(
                        ti,
                        j as int,
                        mat_entries_text(m),
                    )) by {
                    if m.len() > 0 && chain_ok(opt_key_view(prev), m) && mats_ok(m) && text_at(
                        ti,
                        j as int,
                        mat_entries_text(m),
                    ) {
                        assert(m.len() > 1);
                        assert(m[0] == e0);
                        assert(keys_sorted_from(m[0].0, m.drop_first()));
                        assert(chain_ok(Some(kc@), m.drop_first()));
                        assert(text_at(ti, je + 1, mat_entries_text(m.drop_first())));
                    }
                }
            }
            return None;
        },
        Some((list, j2)) => {
            let ghost tailv = mats_view(list@);
            let mut res = list;
            res.insert(0, entry);
            proof {
                let mv = mats_view(res@);
                assert(mv =~= seq![e0] + tailv);
                assert(ti.subrange(je as int, je + 1) =~= seq![',']);
                assert(mat_tail_text(tailv) =~= seq![','] + mat_entries_text(tailv));
                lemma_text_at_concat(ti, je as int, seq![','], mat_entries_text(tailv));
                lemma_mat_entries_assemble(ti, j as int, e0, je as int, tailv);
                assert(mv[0] == e0);
                assert(mv.drop_first() == tailv);
                assert(keys_sorted_from(kc@, tailv));
                match prev {
                    Some(p) => {
                        assert(lex_lt(p@, kc@));
                        assert(keys_sorted_from(p@, mv));
                    },
                    None => {
                        assert(keys_sorted(mv));
                    },
                }
                assert(mats_ok(mv)) by {
                    assert forall|q: int|
                        0 <= q < mv.len() implies path_valid(#[trigger] mv[q].0) && keys_sorted(
                        mv[q].1,
                    ) by {
                        if q > 0 {
                            assert(mv[q] == tailv[q - 1]);
                        }
                    }
                }
                assert forall|m: Seq<(Seq<char>, Seq<(Seq<char>, Seq<char>)>)>|
                    (m.len() > 0 && chain_ok(opt_key_view(prev), m) && mats_ok(m) && text_at(
                        ti,
                        j as int,
                        mat_entries_text(m),
                    )) implies m == mv && mat_entries_text(m).len() == mat_entries_text(
                    mv,
                ).len() by {
                    assert(m.len() > 1);
                    assert(chain_ok(Some(kc@), m.drop_first()));
                    assert(m.drop_first() == tailv);
                    assert(m =~= mv);
                }
            }
            return Some((res, j2));
        },
    }
}

/// The inputs of a step: tracked paths mapped to their digest sets, keys
/// unique and held in canonical order.
#[derive(Debug, Clone, PartialEq, Eq)]
pub struct Materials {
    entries: Vec<(VirtualTargetPath, StrMap)>,
}

impl View for Materials {
    type V = Seq<(Seq<char>, Seq<(Seq<char>, Seq<char>)>)>;

    closed spec fn view(&self) -> Seq<(Seq<char>, Seq<(Seq<char>, Seq<char>)>)> {
        mats_view(self.entries@)
    }
}

impl Materials {
    /// Keys strictly ascend, paths are valid, digest sets are sorted.
    pub open spec fn wf(self) -> bool {
        keys_sorted(self@) && mats_ok(self@)
    }

    /// The empty map.
    pub fn new() -> (r: Materials)
        ensures
            r@ == Seq::<(Seq<char>, Seq<(Seq<char>, Seq<char>)>)>::empty(),
            r.wf(),
    {
        let r = Materials { entries: Vec::new() };
        proof {
            assert(r@ =~= Seq::<(Seq<char>, Seq<(Seq<char>, Seq<char>)>)>::empty());
        }
        r
    }

    /// Inserts `path -> digests`, replacing any existing binding; the keys
    /// stay in canonical order.
    pub fn insert(&mut self, path: VirtualTargetPath, digests: TargetDescription)
        requires
            old(self).wf(),
            path.wf(),
            digests.wf(),
        ensures
            final(self)@ == map_insert(old(self)@, path@, digests@),
            final(self).wf(),
    {
        proof {
            lemma_map_insert_sorted(self@, path@, digests@);
        }
        mat_insert_at(&mut self.entries, 0, path, digests);
        proof {
            assert(self@ =~= map_insert(old(self)@, path@, digests@)) by {
                assert(old(self)@.take(0) =~= Seq::<
                    (Seq<char>, Seq<(Seq<char>, Seq<char>)>),
                >::empty());
                assert(old(self)@.skip(0) =~= old(self)@);
            }
            let nv = map_insert(old(self)@, path@, digests@);
            assert(mats_ok(nv)) by {
                lemma_map_insert_ok(old(self)@, path@, digests@);
            }
        }
    }

    /// Number of tracked files.
    pub fn len(&self) -> (r: usize)
        ensures
            r == self@.len(),
    {
        self.entries.len()
    }

    pub(crate) fn entries(&self) -> (r: &Vec<(VirtualTargetPath, StrMap)>)
        ensures
            mats_view(r@) == self@,
    {
        &self.entries
    }

    pub(crate) fn from_entries(entries: Vec<(VirtualTargetPath, StrMap)>) -> (r: Materials)
        ensures
            r@ == mats_view(entries@),
    {
        Materials { entries }
    }
}

/// Inserting a valid entry into an all-valid map keeps every entry valid.
proof fn lemma_map_insert_ok(
    m: Seq<(Seq<char>, Seq<(Seq<char>, Seq<char>)>)>,
    k: Seq<char>,
    v: Seq<(Seq<char>, Seq<char>)>,
)
    requires
        mats_ok(m),
        path_valid(k),
        keys_sorted(v),
    ensures
        mats_ok(map_insert(m, k, v)),
    decreases m.len(),
{
    if m.len() == 0 {
        assert forall|q: int|
            0 <= q < map_insert(m, k, v).len() implies path_valid(
            #[trigger] map_insert(m, k, v)[q].0,
        ) && keys_sorted(map_insert(m, k, v)[q].1) by {
            assert(map_insert(m, k, v)[q] == (k, v));
        }
    } else if lex_lt(k, m[0].0) {
        assert forall|q: int|
            0 <= q < map_insert(m, k, v).len() implies path_valid(
            #[trigger] map_insert(m, k, v)[q].0,
        ) && keys_sorted(map_insert(m, k, v)[q].1) by {
            if q == 0 {
                assert(map_insert(m, k, v)[q] == (k, v));
            } else {
                assert(map_insert(m, k, v)[q] == m[q - 1]);
            }
        }
    } else if k == m[0].0 {
        assert forall|q: int|
            0 <= q < map_insert(m, k, v).len() implies path_valid(
            #[trigger] map_insert(m, k, v)[q].0,
        ) && keys_sorted(map_insert(m, k, v)[q].1) by {
            if q == 0 {
                assert(map_insert(m, k, v)[q] == (k, v));
            } else {
                assert(map_insert(m, k, v)[q] == m.drop_first()[q - 1]);
                assert(m.drop_first()[q - 1] == m[q]);
            }
        }
    } else {
        assert(mats_ok(m.drop_first())) by {
            assert forall|q: int|
                0 <= q < m.drop_first().len() implies path_valid(
                #[trigger] m.drop_first()[q].0,
            ) && keys_sorted(m.drop_first()[q].1) by {
                assert(m.drop_first()[q] == m[q + 1]);
            }
        }
        lemma_map_insert_ok(m.drop_first(), k, v);
        assert forall|q: int|
            0 <= q < map_insert(m, k, v).len() implies path_valid(
            #[trigger] map_insert(m, k, v)[q].0,
        ) && keys_sorted(map_insert(m, k, v)[q].1) by {
            if q == 0 {
                assert(map_insert(m, k, v)[q] == m[0]);
            } else {
                assert(map_insert(m, k, v)[q] == map_insert(m.drop_first(), k, v)[q - 1]);
            }
        }
    }
}

/// Sorted insert for material entries, mirroring `map_insert`.
fn mat_insert_at(
    entries: &mut Vec<(VirtualTargetPath, StrMap)>,
    i: usize,
    k: VirtualTargetPath,
    v: StrMap,
)
    requires
        i <= old(entries)@.len(),
    ensures
        mats_view(final(entries)@) == mats_view(old(entries)@).take(i as int) + map_insert(
            mats_view(old(entries)@).skip(i as int),
            k@,
            v@,
        ),
    decreases old(entries)@.len() - i,
{
    let ghost ov = mats_view(entries@);
    let ghost kk = k@;
    let ghost vv = v@;
    if i == entries.len() {
        entries.push((k, v));
        proof {
            assert(mats_view(entries@) =~= ov.take(i as int) + map_insert(
                ov.skip(i as int),
                kk,
                vv,
            )) by {
                assert(ov.skip(i as int) =~= Seq::<
                    (Seq<char>, Seq<(Seq<char>, Seq<char>)>),
                >::empty());
                assert(ov.take(i as int) =~= ov);
            }
        }
    } else if str_lt(k.as_str(), entries[i].0.as_str()) {
        entries.insert(i, (k, v));
        proof {
            assert(lex_lt(kk, ov.skip(i as int)[0].0));
            assert(map_insert(ov.skip(i as int), kk, vv) == seq![(kk, vv)] + ov.skip(i as int));
            assert(mats_view(entries@) =~= ov.take(i as int) + (seq![(kk, vv)] + ov.skip(
                i as int,
            )));
        }
    } else if str_lt(entries[i].0.as_str(), k.as_str()) {
        proof {
            lemma_lex_trichotomy(kk, ov.skip(i as int)[0].0);
            assert(!lex_lt(kk, ov.skip(i as int)[0].0) && kk != ov.skip(i as int)[0].0);
            assert(map_insert(ov.skip(i as int), kk, vv) == seq![ov.skip(i as int)[0]] + map_insert(
                ov.skip(i as int).drop_first(),
                kk,
                vv,
            ));
            assert(ov.skip(i as int).drop_first() =~= ov.skip(i + 1));
        }
        mat_insert_at(entries, i + 1, k, v);
        proof {
            assert(mats_view(entries@) =~= ov.take(i as int) + (seq![ov.skip(i as int)[0]]
                + map_insert(ov.skip(i + 1), kk, vv))) by {
                assert(mats_view(entries@) == ov.take(i + 1) + map_insert(ov.skip(i + 1), kk, vv));
                assert(ov.take(i + 1) =~= ov.take(i as int) + seq![ov.skip(i as int)[0]]);
            }
        }
    } else {
        proof {
            lemma_lex_trichotomy(kk, ov.skip(i as int)[0].0);
            assert(kk == ov.skip(i as int)[0].0);
        }
        entries.set(i, (k, v));
        proof {
            assert(map_insert(ov.skip(i as int), kk, vv) == seq![(kk, vv)] + ov.skip(
                i as int,
            ).drop_first());
            assert(mats_view(entries@) =~= ov.take(i as int) + (seq![(kk, vv)] + ov.skip(
                i as int,
            ).drop_first()));
        }
    }
}

// ---------------------------------------------------------------------------
// Canonical writers and readers for the map types
// ---------------------------------------------------------------------------

fn write_mat_tail(out: &mut Vec<char>, m: &Vec<(VirtualTargetPath, StrMap)>, i: usize)
    requires
        i <= m@.len(),
    ensures
        final(out)@ == old(out)@ + mat_tail_text(mats_view(m@).skip(i as int)),
    decreases m@.len() - i,
{
    if i == m.len() {
        out.push('}');
        proof {
            assert(mats_view(m@).skip(i as int) =~= Seq::<
                (Seq<char>, Seq<(Seq<char>, Seq<char>)>),
            >::empty());
            assert(out@ =~= old(out)@ + mat_tail_text(mats_view(m@).skip(i as int)));
        }
    } else {
        out.push(',');
        let e = &m[i];
        write_quoted(out, e.0.as_str());
        out.push(':');
        write_kv(out, e.1.entries());
        write_mat_tail(out, m, i + 1);
        proof {
            let mv = mats_view(m@);
            assert(mv.skip(i as int)[0] == (m@[i as int].0@, m@[i as int].1@));
            assert(mv.skip(i as int).drop_first() =~= mv.skip(i + 1));
            assert(mat_entry_text(mv.skip(i as int)[0]) =~= quoted(m@[i as int].0@) + seq![':']
                + kv_text(m@[i as int].1@));
            assert(out@ =~= old(out)@ + mat_tail_text(mv.skip(i as int)));
        }
    }
}

/// Appends the canonical text of a materials map.
pub fn write_mats(out: &mut Vec<char>, m: &Materials)
    ensures
        final(out)@ == old(out)@ + mat_text(m@),
{
    let entries = m.entries();
    out.push('{');
    if entries.len() == 0 {
        out.push('}');
        proof {
            assert(m@.len() == 0);
            assert(mat_text(m@) =~= seq!['{', '}']);
            assert(out@ =~= old(out)@ + mat_text(m@));
        }
    } else {
        let e = &entries[0];
        write_quoted(out, e.0.as_str());
        out.push(':');
        write_kv(out, e.1.entries());
        write_mat_tail(out, entries, 1);
        proof {
            let mv = mats_view(entries@);
            assert(mv[0] == (entries@[0].0@, entries@[0].1@));
            assert(mv.drop_first() =~= mv.skip(1));
            assert(mat_entry_text(mv[0]) =~= quoted(entries@[0].0@) + seq![':'] + kv_text(
                entries@[0].1@,
            ));
            assert(out@ =~= old(out)@ + mat_text(mv));
        }
    }
}

/// Reads a canonical materials map starting at `i`: path keys strictly
/// ascending and valid, digest sets sorted, no whitespace.
#[verifier::rlimit(60)]
pub fn parse_mats(t: &Vec<char>, i: usize) -> (r: Option<(Materials, usize)>)
    requires
        i <= t@.len(),
    ensures
        r matches Some(p) ==> i < p.1 <= t@.len() && p.0.wf() && text_at(
            t@,
            i as int,
            mat_text(p.0@),
        ) && p.1 == i + mat_text(p.0@).len(),
        forall|m: Seq<(Seq<char>, Seq<(Seq<char>, Seq<char>)>)>|
            (keys_sorted(m) && mats_ok(m) && text_at(t@, i as int, mat_text(m))) ==> (
            r matches Some(p) && p.0@ == m && p.1 == i + mat_text(m).len()),
{
    let ghost ti = t@;
    if i == t.len() || !char_at_is(t, i, '{') {
        proof {
            assert forall|m: Seq<(Seq<char>, Seq<(Seq<char>, Seq<char>)>)>|
                !text_at(ti, i as int, mat_text(m)) by {
                if text_at(ti, i as int, mat_text(m)) {
                    lemma_mat_text_shape(m);
                    lemma_text_at_char(ti, i as int, mat_text(m), 0);
                }
            }
        }
        return None;
    }
    if i + 1 == t.len() {
        proof {
            assert forall|m: Seq<(Seq<char>, Seq<(Seq<char>, Seq<char>)>)>|
                !text_at(ti, i as int, mat_text(m)) by {
                lemma_mat_text_shape(m);
            }
        }
        return None;
    }
    if char_at_is(t, i + 1, '}') {
        let v: Vec<(VirtualTargetPath, StrMap)> = Vec::new();
        let r = Materials::from_entries(v);
        proof {
            assert(r@ =~= Seq::<(Seq<char>, Seq<(Seq<char>, Seq<char>)>)>::empty());
            assert(mat_text(r@) =~= seq!['{', '}']);
            assert(ti.subrange(i as int, i + 2) =~= seq!['{', '}']);
            assert forall|m: Seq<(Seq<char>, Seq<(Seq<char>, Seq<char>)>)>|
                text_at(ti, i as int, mat_text(m)) implies m == r@ by {
                lemma_mat_text_shape(m);
                if m.len() > 0 {
                    lemma_text_at_char(ti, i as int, mat_text(m), 1);
                } else {
                    assert(m =~= r@);
                }
            }
        }
        return Some((r, i + 2));
    }
    proof {
        assert forall|m: Seq<(Seq<char>, Seq<(Seq<char>, Seq<char>)>)>|
            (keys_sorted(m) && text_at(ti, i as int, mat_text(m))) implies (m.len() > 0 && chain_ok(
            None,
            m,
        ) && text_at(ti, i + 1, mat_entries_text(m))) by {
            lemma_mat_text_shape(m);
            if m.len() == 0 {
                lemma_text_at_char(ti, i as int, mat_text(m), 1);
            } else {
                assert(mat_text(m) =~= seq!['{'] + mat_entries_text(m));
                lemma_text_at_concat(ti, i as int, seq!['{'], mat_entries_text(m));
            }
        }
    }
    let rec = parse_mat_entries(t, i + 1, None);
    match rec {
        None => None,
        Some((res, j2)) => {
            let mats = Materials::from_entries(res);
            proof {
                assert(ti.subrange(i as int, i + 1) =~= seq!['{']);
                lemma_text_at_concat(ti, i as int, seq!['{'], mat_entries_text(mats@));
                assert(seq!['{'] + mat_entries_text(mats@) =~= mat_text(mats@));
            }
            Some((mats, j2))
        },
    }
}

/// Appends the canonical text of a string map.
pub fn write_strmap(out: &mut Vec<char>, m: &StrMap)
    ensures
        final(out)@ == old(out)@ + kv_text(m@),
{
    write_kv(out, m.entries());
}

/// Reads a canonical string map starting at `i`.
pub fn parse_strmap(t: &Vec<char>, i: usize) -> (r: Option<(StrMap, usize)>)
    requires
        i <= t@.len(),
    ensures
        r matches Some(p) ==> i < p.1 <= t@.len() && p.0.wf() && text_at(
            t@,
            i as int,
            kv_text(p.0@),
        ) && p.1 == i + kv_text(p.0@).len(),
        forall|m: Seq<(Seq<char>, Seq<char>)>|
            (keys_sorted(m) && text_at(t@, i as int, kv_text(m))) ==> (r matches Some(p) && p.0@
                == m && p.1 == i + kv_text(m).len()),
{
    match parse_kv(t, i) {
        None => None,
        Some((entries, j)) => Some((StrMap::from_entries(entries), j)),
    }
}

// ---------------------------------------------------------------------------
// Unified link metadata
// ---------------------------------------------------------------------------

/// Ghost shape shared by the unified metadata and the versioned link record:
/// in this schema version the record carries every unified field.
pub struct LinkView {
    pub name: Seq<char>,
    pub materials: Seq<(Seq<char>, Seq<(Seq<char>, Seq<char>)>)>,
    pub env: Option<Seq<(Seq<char>, Seq<char>)>>,
    pub command: Seq<char>,
    pub byproducts: ByProductsView,
}

impl LinkView {
    /// Maps canonicalize deterministically: keys sorted and unique, paths
    /// valid, digest sets sorted.
    pub open spec fn wf(self) -> bool {
        &&& keys_sorted(self.materials)
        &&& mats_ok(self.materials)
        &&& match self.env {
            Some(e) => keys_sorted(e),
            None => true,
        }
        &&& i64::MIN <= self.byproducts.return_value <= i64::MAX
    }
}

/// The version-agnostic link metadata for one pipeline step, produced by the
/// step-execution engine and projected into a versioned record for encoding.
#[derive(Debug, Clone, PartialEq, Eq)]
pub struct LinkMetadata {
    pub name: String,
    pub materials: Materials,
    pub env: Option<StrMap>,
    pub command: Command,
    pub byproducts: ByProducts,
}

impl View for LinkMetadata {
    type V = LinkView;

    open spec fn view(&self) -> LinkView {
        LinkView {
            name: self.name@,
            materials: self.materials@,
            env: match self.env {
                Some(e) => Some(e@),
                None => None,
            },
            command: self.command@,
            byproducts: self.byproducts@,
        }
    }
}

impl LinkMetadata {
    /// The component maps are canonically ordered.
    pub open spec fn wf(self) -> bool {
        self@.wf()
    }

    /// Assembles metadata for one step.
    pub fn new(
        name: String,
        materials: Materials,
        env: Option<StrMap>,
        command: Command,
        byproducts: ByProducts,
    ) -> (r: LinkMetadata)
        requires
            materials.wf(),
            env matches Some(e) ==> e.wf(),
        ensures
            r@.name == name@,
            r@.materials == materials@,
            r@.env == match env {
                Some(e) => Some(e@),
                None => None::<Seq<(Seq<char>, Seq<char>)>>,
            },
            r@.command == command@,
            r@.byproducts == byproducts@,
            r.wf(),
    {
        LinkMetadata { name, materials, env, command, byproducts }
    }

    /// The step name.
    pub fn name(&self) -> (r: &str)
        ensures
            r@ == self@.name,
    {
        self.name.as_str()
    }

    /// The tracked input files.
    pub fn materials(&self) -> (r: &Materials)
        ensures
            r@ == self@.materials,
    {
        &self.materials
    }

    /// The captured environment, if one was recorded.
    pub fn env(&self) -> (r: &Option<StrMap>)
        ensures
            match r {
                Some(e) => self@.env == Some(e@),
                None => self@.env is None,
            },
    {
        &self.env
    }

    /// The executed command.
    pub fn command(&self) -> (r: &Command)
        ensures
            r@ == self@.command,
    {
        &self.command
    }

    /// The captured byproducts.
    pub fn byproducts(&self) -> (r: &ByProducts)
        ensures
            r@ == self@.byproducts,
    {
        &self.byproducts
    }
}

} // verus!
