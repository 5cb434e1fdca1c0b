//! The security boundary: normalisation of client-supplied relative paths,
//! lexical resolution against the root directory, and the containment check
//! that every path derived from client input must pass before the
//! filesystem is touched.
use vstd::prelude::*;
use crate::text::{
    chars_of, has_prefix, replace_char, replace_in_chars, string_of, strip, strip_chars, Strip,
};

verus! {

/// Whether `s` begins with a dot segment: a slash, a dot and a slash.
pub open spec fn starts_with_dot_segment(s: Seq<char>) -> bool {
    s.len() >= 3 && s[0] == '/' && s[1] == '.' && s[2] == '/'
}

/// Whether a dot segment occurs anywhere in `s`.
pub open spec fn has_dot_segment(s: Seq<char>) -> bool {
    exists|i: int| 0 <= i < s.len() && starts_with_dot_segment(#[trigger] s.skip(i))
}

/// `s` with every dot segment collapsed: each `/./` becomes `/`, and the
/// slash that ends one dot segment may begin the next, so that none is left.
pub open spec fn collapse_dot_segments(s: Seq<char>) -> Seq<char>
    decreases s.len(),
{
    if s.len() == 0 {
        s
    } else if starts_with_dot_segment(s) {
        collapse_dot_segments(s.skip(2))
    } else {
        seq![s[0]] + collapse_dot_segments(s.skip(1))
    }
}

/// How a collapsed text begins: with a slash where the text began with one,
/// and with the first character of the text otherwise, followed by what the
/// rest collapses to.
proof fn collapsed_head(s: Seq<char>)
    ensures
        s.len() == 0 ==> collapse_dot_segments(s).len() == 0,
        s.len() > 0 && s[0] == '/' ==> collapse_dot_segments(s).len() > 0
            && collapse_dot_segments(s)[0] == '/',
        s.len() > 0 && s[0] != '/' ==> collapse_dot_segments(s) == seq![s[0]]
            + collapse_dot_segments(s.skip(1)),
    decreases s.len(),
{
    if starts_with_dot_segment(s) {
        collapsed_head(s.skip(2));
    }
}

/// Collapsing leaves no dot segment behind.
pub proof fn collapsed_has_no_dot_segment(s: Seq<char>)
    ensures
        !has_dot_segment(collapse_dot_segments(s)),
    decreases s.len(),
{
    let c = collapse_dot_segments(s);
    if s.len() == 0 {
    } else if starts_with_dot_segment(s) {
        collapsed_has_no_dot_segment(s.skip(2));
    } else {
        let tail = collapse_dot_segments(s.skip(1));
        collapsed_has_no_dot_segment(s.skip(1));
        assert forall|i: int| 0 <= i < c.len() implies !starts_with_dot_segment(
            #[trigger] c.skip(i),
        ) by {
            if starts_with_dot_segment(c.skip(i)) {
                if i > 0 {
                    assert(c.skip(i) =~= tail.skip(i - 1));
                    assert(starts_with_dot_segment(tail.skip(i - 1)));
                } else {
                    // A dot segment at the very start would have been one in `s`.
                    assert(c[0] == '/' && c[1] == '.' && c[2] == '/');
                    assert(s[0] == '/');
                    assert(tail[0] == '.' && tail[1] == '/');
                    collapsed_head(s.skip(1));
                    assert(s.skip(1).len() > 0 && s.skip(1)[0] == '.');
                    assert(s.skip(1).skip(1) =~= s.skip(2));
                    let after = collapse_dot_segments(s.skip(2));
                    assert(tail == seq!['.'] + after);
                    assert(after[0] == tail[1]);
                    collapsed_head(s.skip(2));
                    assert(s.skip(2).len() > 0 && s.skip(2)[0] == '/');
                    assert(starts_with_dot_segment(s));
                }
            }
        }
    }
}

/// The normal form of a client-supplied relative path: backslashes become
/// slashes, surrounding white space goes, then leading and trailing slashes,
/// then every dot segment.
pub open spec fn normalized(path: Seq<char>) -> Seq<char> {
    collapse_dot_segments(
        strip(strip(replace_char(path, '\\', '/'), Strip::Whitespace), Strip::Slashes),
    )
}

/// The normal form of a path holds no dot segment.
pub proof fn normal_form_has_no_dot_segment(path: Seq<char>)
    ensures
        !has_dot_segment(normalized(path)),
{
    collapsed_has_no_dot_segment(
        strip(strip(replace_char(path, '\\', '/'), Strip::Whitespace), Strip::Slashes),
    );
}

/// `rel` appended to `root` as a path: an absolute `rel` stands alone, and
/// one slash separates the two parts unless `root` is empty or already ends
/// in one.
pub open spec fn joined(root: Seq<char>, rel: Seq<char>) -> Seq<char> {
    if rel.len() > 0 && rel[0] == '/' {
        rel
    } else if root.len() == 0 || root.last() == '/' {
        root + rel
    } else {
        root + seq!['/'] + rel
    }
}

/// What `path_clean::clean` makes of a path: the lexically cleaned path,
/// with repeated slashes, `.` elements and resolvable `..` elements gone.
pub uninterp spec fn cleaned(path: Seq<char>) -> Seq<char>;

/// The absolute, cleaned path that a normalised relative path stands for.
pub open spec fn resolved(root: Seq<char>, rel: Seq<char>) -> Seq<char> {
    cleaned(joined(root, rel))
}

/// Containment: the root directory's string is a prefix of the path's.
pub open spec fn under_root(root: Seq<char>, full: Seq<char>) -> bool {
    root.is_prefix_of(full)
}

/// Whether the policy lets a resolved path be used.
pub open spec fn permitted(root: Seq<char>, full: Seq<char>, allow_parent: bool) -> bool {
    allow_parent || under_root(root, full)
}

/// What `pathdiff::diff_paths` returns for `path` relative to `base`.
pub uninterp spec fn relative_to(path: Seq<char>, base: Seq<char>) -> Option<Seq<char>>;

/// Calls `path_clean::clean`, which works on the text of the path alone and
/// never reads the filesystem; the result is named by `cleaned`.
#[verifier::external_body]
fn clean_path(path: &str) -> (out: String)
    ensures
        out@ == cleaned(path@),
{
    path_clean::clean(path).to_string_lossy().into_owned()
}

/// Calls `pathdiff::diff_paths`, which compares the two paths component by
/// component without reading the filesystem; the result is named by
/// `relative_to`, and is `None` exactly when `diff_paths` returns `None`.
#[verifier::external_body]
fn diff_path_strings(path: &str, base: &str) -> (out: Option<String>)
    ensures
        match out {
            Some(s) => relative_to(path@, base@) == Some(s@),
            None => relative_to(path@, base@) is None,
        },
{
    match pathdiff::diff_paths(path, base) {
        Some(p) => Some(p.to_string_lossy().into_owned()),
        None => None,
    }
}

fn collapse_dots(v: &Vec<char>) -> (out: Vec<char>)
    ensures
        out@ == collapse_dot_segments(v@),
{
    let n = v.len();
    let mut out: Vec<char> = Vec::new();
    let mut i: usize = 0;
    assert(v@.skip(0) =~= v@);
    while i < n
        invariant
            i <= n == v.len(),
            out@ + collapse_dot_segments(v@.skip(i as int)) == collapse_dot_segments(v@),
        decreases n - i,
    {
        let ghost rest = v@.skip(i as int);
        let ghost before = out@;
        if n - i >= 3 && v[i] == '/' && v[i + 1] == '.' && v[i + 2] == '/' {
            assert(rest.skip(2) =~= v@.skip(i + 2));
            i += 2;
        } else {
            out.push(v[i]);
            assert(rest.skip(1) =~= v@.skip(i + 1));
            assert(out@ + collapse_dot_segments(v@.skip(i + 1)) =~= before
                + collapse_dot_segments(rest));
            i += 1;
        }
    }
    assert(out@ + Seq::<char>::empty() =~= out@);
    out
}

/// Normalises a client-supplied relative path. The result holds no dot
/// segment.
pub fn normalize_rel_path(path: &str) -> (out: String)
    ensures
        out@ == normalized(path@),
        !has_dot_segment(out@),
{
    proof {
        normal_form_has_no_dot_segment(path@);
    }
    let raw = chars_of(path);
    let slashed = replace_in_chars(&raw, '\\', '/');
    let trimmed = strip_chars(&slashed, Strip::Whitespace);
    let bare = strip_chars(&trimmed, Strip::Slashes);
    let collapsed = collapse_dots(&bare);
    string_of(&collapsed)
}

/// Joins `rel` to `root` with one separating slash.
pub fn join_paths(root: &str, rel: &str) -> (out: String)
    ensures
        out@ == joined(root@, rel@),
{
    let r = chars_of(root);
    let p = chars_of(rel);
    if p.len() > 0 && p[0] == '/' {
        return string_of(&p);
    }
    let mut out: Vec<char> = r;
    if out.len() > 0 && out[out.len() - 1] != '/' {
        out.push('/');
    }
    let ghost head = out@;
    let mut i: usize = 0;
    while i < p.len()
        invariant
            i <= p.len(),
            out@ == head + p@.take(i as int),
        decreases p.len() - i,
    {
        out.push(p[i]);
        i += 1;
        assert(head + p@.take(i as int) =~= (head + p@.take(i - 1)).push(p@[i - 1]));
    }
    assert(p@.take(p.len() as int) =~= p@);
    string_of(&out)
}

/// Resolves a normalised relative path against the root directory, lexically:
/// symbolic links are not followed.
pub fn resolve_full_path(root_dir: &str, rel_path: &str) -> (out: String)
    ensures
        out@ == resolved(root_dir@, rel_path@),
{
    let joined = join_paths(root_dir, rel_path);
    clean_path(joined.as_str())
}

/// The containment check: whether `full_path` has the root directory's
/// string as a prefix.
pub fn is_under_root(root_dir: &str, full_path: &str) -> (b: bool)
    ensures
        b == under_root(root_dir@, full_path@),
{
    let r = chars_of(root_dir);
    let f = chars_of(full_path);
    has_prefix(&f, &r)
}

/// A client-supplied path that passed the boundary.
#[derive(Clone, Debug)]
pub struct ResolvedPath {
    /// The normalised relative path.
    pub rel: String,
    /// The cleaned absolute path.
    pub full: String,
}

/// The path escapes the root directory and the policy does not allow that.
#[derive(Clone, Copy, PartialEq, Eq, Structural, Debug)]
pub struct PolicyViolation;

/// Passes a client-supplied path through the boundary: normalises it,
/// resolves it, and admits it if the policy allows parent access or the
/// resolved path lies under the root.
pub fn authorize(root_dir: &str, requested: &str, allow_parent: bool) -> (out: Result<
    ResolvedPath,
    PolicyViolation,
>)
    ensures
        out is Ok <==> permitted(
            root_dir@,
            resolved(root_dir@, normalized(requested@)),
            allow_parent,
        ),
        out matches Ok(p) ==> p.rel@ == normalized(requested@) && p.full@ == resolved(
            root_dir@,
            p.rel@,
        ),
{
    let rel = normalize_rel_path(requested);
    let full = resolve_full_path(root_dir, rel.as_str());
    if allow_parent || is_under_root(root_dir, full.as_str()) {
        Ok(ResolvedPath { rel, full })
    } else {
        Err(PolicyViolation)
    }
}

/// A path admitted under a policy that forbids parent access always has the
/// root directory's string as a prefix, and a path whose resolution leaves
/// the root is never admitted under such a policy.
pub proof fn boundary_contains(root: Seq<char>, requested: Seq<char>)
    ensures
        permitted(root, resolved(root, normalized(requested)), false) <==> root.is_prefix_of(
            resolved(root, normalized(requested)),
        ),
        !under_root(root, resolved(root, normalized(requested))) ==> !permitted(
            root,
            resolved(root, normalized(requested)),
            false,
        ),
{
}

/// `full_path` relative to the root directory, with forward slashes; empty
/// where no relative path exists.
pub open spec fn rel_string(root: Seq<char>, full: Seq<char>) -> Seq<char> {
    match relative_to(full, root) {
        Some(s) => replace_char(s, '\\', '/'),
        None => Seq::empty(),
    }
}

/// The root-relative form of an absolute path, forward-slash separated, or
/// nothing where no relative path exists.
pub fn relative_path(full_path: &str, root_dir: &str) -> (out: Option<String>)
    ensures
        out is Some <==> relative_to(full_path@, root_dir@) is Some,
        out matches Some(s) ==> s@ == rel_string(root_dir@, full_path@),
{
    match diff_path_strings(full_path, root_dir) {
        Some(rel) => {
            let v = chars_of(rel.as_str());
            let r = replace_in_chars(&v, '\\', '/');
            Some(string_of(&r))
        },
        None => None,
    }
}

/// The root-relative form of an absolute path, forward-slash separated.
pub fn path_to_rel_string(root_dir: &str, full_path: &str) -> (out: String)
    ensures
        out@ == rel_string(root_dir@, full_path@),
{
    match relative_path(full_path, root_dir) {
        Some(rel) => rel,
        None => String::new(),
    }
}

} // verus!
