//! File names inside root-relative paths: extensions, stems, parent folders,
//! duplicate-index suffixes, and the escaping of prefix patterns.
use vstd::prelude::*;
use crate::text::{
    ascii_lower_char, ascii_lower_seq, chars_of, find_last, last_index_of, replace_char,
    replace_in_chars, slice_chars, string_of, strip_end, strips_char, Strip,
};

verus! {

/// The last element of a slash-separated path: what follows the last slash.
/// The path is read as text: after a trailing slash the last element is
/// empty, and a trailing `.` is an element like any other. Paths of the
/// catalog never end that way.
pub open spec fn file_name(path: Seq<char>) -> Seq<char> {
    path.skip(last_index_of(path, '/') + 1)
}

/// Whether a file name has an extension: it is not `..`, and it holds a dot
/// that is not its first character.
pub open spec fn has_extension(name: Seq<char>) -> bool {
    name != seq!['.', '.'] && last_index_of(name, '.') > 0
}

/// The extension of the path's file name: what follows its last dot.
pub open spec fn extension(path: Seq<char>) -> Option<Seq<char>> {
    let name = file_name(path);
    if has_extension(name) {
        Some(name.skip(last_index_of(name, '.') + 1))
    } else {
        None
    }
}

/// The stem of the path's file name: the name up to its last dot, or the
/// whole name where it has no extension; empty for `..`.
pub open spec fn file_stem(path: Seq<char>) -> Seq<char> {
    let name = file_name(path);
    if name == seq!['.', '.'] {
        Seq::empty()
    } else if has_extension(name) {
        name.take(last_index_of(name, '.'))
    } else {
        name
    }
}

/// The folder part of a path: what precedes its last slash, with forward
/// slashes; empty where the path has no slash. The path is read as text, so
/// the folder part of `a/b/` is `a/b`.
pub open spec fn parent_of(path: Seq<char>) -> Seq<char> {
    let cut = last_index_of(path, '/');
    if cut < 0 {
        Seq::empty()
    } else {
        replace_char(path.take(cut), '\\', '/')
    }
}

/// The supported image extensions, compared without regard to ASCII case:
/// jpg, jpeg, png, gif, webp, bmp.
pub open spec fn is_image_extension(ext: Seq<char>) -> bool {
    let e = ascii_lower_seq(ext);
    ||| e == seq!['j', 'p', 'g']
    ||| e == seq!['j', 'p', 'e', 'g']
    ||| e == seq!['p', 'n', 'g']
    ||| e == seq!['g', 'i', 'f']
    ||| e == seq!['w', 'e', 'b', 'p']
    ||| e == seq!['b', 'm', 'p']
}

/// Whether the path names a file with a supported image extension.
pub open spec fn image_path(path: Seq<char>) -> bool {
    match extension(path) {
        Some(e) => is_image_extension(e),
        None => false,
    }
}

proof fn last_index_bounds(s: Seq<char>, c: char)
    ensures
        -1 <= last_index_of(s, c) < s.len(),
        last_index_of(s, c) >= 0 ==> s[last_index_of(s, c)] == c,
    decreases s.len(),
{
    if s.len() > 0 && s.last() != c {
        last_index_bounds(s.drop_last(), c);
    }
}

/// The characters of the path's file name.
fn file_name_chars(v: &Vec<char>) -> (out: Vec<char>)
    ensures
        out@ == file_name(v@),
{
    proof {
        last_index_bounds(v@, '/');
    }
    let start: usize = match find_last(v, '/') {
        Some(i) => {
            assert(i < v.len());
            i + 1
        },
        None => 0,
    };
    assert(v@.subrange(start as int, v@.len() as int) =~= v@.skip(start as int));
    slice_chars(v, start, v.len())
}

/// The position of the dot that begins the extension of `name`.
fn extension_dot(name: &Vec<char>) -> (r: Option<usize>)
    ensures
        r is Some <==> has_extension(name@),
        r matches Some(d) ==> d as int == last_index_of(name@, '.') && d < name@.len(),
{
    proof {
        last_index_bounds(name@, '.');
    }
    if name.len() == 2 && name[0] == '.' && name[1] == '.' {
        assert(name@ =~= seq!['.', '.']);
        return None;
    }
    assert(name@ != seq!['.', '.']) by {
        if name@ == seq!['.', '.'] {
            assert(seq!['.', '.'].len() == 2);
            assert(seq!['.', '.'][0] == '.');
            assert(seq!['.', '.'][1] == '.');
        }
    }
    match find_last(name, '.') {
        Some(d) => if d > 0 {
            Some(d)
        } else {
            None
        },
        None => None,
    }
}

fn is_image_extension_chars(ext: &Vec<char>) -> (b: bool)
    ensures
        b == is_image_extension(ext@),
{
    let n = ext.len();
    let ghost e = ascii_lower_seq(ext@);
    assert(e.len() == n);
    if n == 3 {
        let a = ascii_lower_char(ext[0]);
        let b = ascii_lower_char(ext[1]);
        let c = ascii_lower_char(ext[2]);
        assert(e =~= seq![a, b, c]);
        assert(seq![a, b, c][0] == a && seq![a, b, c][1] == b && seq![a, b, c][2] == c);
        assert(seq!['j', 'p', 'e', 'g'].len() == 4);
        assert(seq!['w', 'e', 'b', 'p'].len() == 4);
        let r = (a == 'j' && b == 'p' && c == 'g') || (a == 'p' && b == 'n' && c == 'g') || (a
            == 'g' && b == 'i' && c == 'f') || (a == 'b' && b == 'm' && c == 'p');
        proof {
            let jpg = seq!['j', 'p', 'g'];
            let png = seq!['p', 'n', 'g'];
            let gif = seq!['g', 'i', 'f'];
            let bmp = seq!['b', 'm', 'p'];
            assert(jpg[0] == 'j' && jpg[1] == 'p' && jpg[2] == 'g');
            assert(png[0] == 'p' && png[1] == 'n' && png[2] == 'g');
            assert(gif[0] == 'g' && gif[1] == 'i' && gif[2] == 'f');
            assert(bmp[0] == 'b' && bmp[1] == 'm' && bmp[2] == 'p');
            if r {
                assert(e =~= jpg || e =~= png || e =~= gif || e =~= bmp);
            }
        }
        r
    } else if n == 4 {
        let a = ascii_lower_char(ext[0]);
        let b = ascii_lower_char(ext[1]);
        let c = ascii_lower_char(ext[2]);
        let d = ascii_lower_char(ext[3]);
        assert(e =~= seq![a, b, c, d]);
        assert(seq![a, b, c, d][0] == a && seq![a, b, c, d][1] == b && seq![a, b, c, d][2] == c
            && seq![a, b, c, d][3] == d);
        assert(seq!['j', 'p', 'g'].len() == 3);
        assert(seq!['p', 'n', 'g'].len() == 3);
        assert(seq!['g', 'i', 'f'].len() == 3);
        assert(seq!['b', 'm', 'p'].len() == 3);
        let r = (a == 'j' && b == 'p' && c == 'e' && d == 'g') || (a == 'w' && b == 'e' && c
            == 'b' && d == 'p');
        proof {
            let jpeg = seq!['j', 'p', 'e', 'g'];
            let webp = seq!['w', 'e', 'b', 'p'];
            assert(jpeg[0] == 'j' && jpeg[1] == 'p' && jpeg[2] == 'e' && jpeg[3] == 'g');
            assert(webp[0] == 'w' && webp[1] == 'e' && webp[2] == 'b' && webp[3] == 'p');
            if r {
                assert(e =~= jpeg || e =~= webp);
            }
        }
        r
    } else {
        assert(seq!['j', 'p', 'g'].len() == 3);
        assert(seq!['p', 'n', 'g'].len() == 3);
        assert(seq!['g', 'i', 'f'].len() == 3);
        assert(seq!['b', 'm', 'p'].len() == 3);
        assert(seq!['j', 'p', 'e', 'g'].len() == 4);
        assert(seq!['w', 'e', 'b', 'p'].len() == 4);
        false
    }
}

/// Whether the path's extension is one of the supported image extensions,
/// without regard to ASCII case.
pub fn is_image_ext(path: &str) -> (b: bool)
    ensures
        b == image_path(path@),
{
    let v = chars_of(path);
    let name = file_name_chars(&v);
    match extension_dot(&name) {
        Some(d) => {
            assert(d < name.len());
            assert(name@.subrange(d + 1, name@.len() as int) =~= name@.skip(d + 1));
            let ext = slice_chars(&name, d + 1, name.len());
            is_image_extension_chars(&ext)
        },
        None => false,
    }
}

/// The folder that holds the file at `path`; empty for a file at top level.
pub fn parent_folder(path: &str) -> (out: String)
    ensures
        out@ == parent_of(path@),
{
    let v = chars_of(path);
    match find_last(&v, '/') {
        Some(cut) => {
            proof {
                last_index_bounds(v@, '/');
            }
            assert(v@.subrange(0, cut as int) =~= v@.take(cut as int));
            let head = slice_chars(&v, 0, cut);
            let folder = replace_in_chars(&head, '\\', '/');
            string_of(&folder)
        },
        None => String::new(),
    }
}

/// The stem of the file name at the end of `path`.
pub fn file_stem_from_rel_path(path: &str) -> (out: String)
    ensures
        out@ == file_stem(path@),
{
    let v = chars_of(path);
    let name = file_name_chars(&v);
    if name.len() == 2 && name[0] == '.' && name[1] == '.' {
        assert(name@ =~= seq!['.', '.']);
        return String::new();
    }
    match extension_dot(&name) {
        Some(d) => {
            assert(name@.subrange(0, d as int) =~= name@.take(d as int));
            let stem = slice_chars(&name, 0, d);
            string_of(&stem)
        },
        None => {
            assert(name@ != seq!['.', '.']) by {
                if name@ == seq!['.', '.'] {
                    assert(seq!['.', '.'].len() == 2);
                    assert(seq!['.', '.'][0] == '.');
                    assert(seq!['.', '.'][1] == '.');
                }
            }
            string_of(&name)
        },
    }
}

/// Whether `c` is an ASCII decimal digit.
pub open spec fn is_digit(c: char) -> bool {
    '0' <= c && c <= '9'
}

/// The length of the longest run of decimal digits that ends `s`.
pub open spec fn trailing_digits(s: Seq<char>) -> nat
    decreases s.len(),
{
    if s.len() > 0 && is_digit(s.last()) {
        1 + trailing_digits(s.drop_last())
    } else {
        0
    }
}

/// Where the duplicate-index suffix ` (N)` of `name` begins, if `name` ends
/// in one: a space, an opening bracket, one or more decimal digits and a
/// closing bracket.
pub open spec fn index_suffix_start(name: Seq<char>) -> Option<int> {
    if name.len() >= 1 && name.last() == ')' {
        let digits = trailing_digits(name.drop_last());
        let start = name.len() - 1 - digits - 2;
        if digits >= 1 && start >= 0 && name[start] == ' ' && name[start + 1] == '(' {
            Some(start)
        } else {
            None
        }
    } else {
        None
    }
}

/// `name` without a trailing duplicate-index suffix and the white space
/// before it; `name` itself where it ends in no such suffix.
pub open spec fn without_index_suffix(name: Seq<char>) -> Seq<char> {
    match index_suffix_start(name) {
        Some(start) => strip_end(name.take(start), Strip::Whitespace),
        None => name,
    }
}

/// Strips a trailing ` (N)` duplicate-index suffix from a file stem.
pub fn strip_trailing_index_suffix(name: &str) -> (out: String)
    ensures
        out@ == without_index_suffix(name@),
{
    let v = chars_of(name);
    let n = v.len();
    if n == 0 || v[n - 1] != ')' {
        return string_of(&v);
    }
    let mut j: usize = n - 1;
    let ghost body = v@.drop_last();
    assert(body.take(j as int) =~= body);
    while j > 0 && '0' <= v[j - 1] && v[j - 1] <= '9'
        invariant
            j <= n - 1,
            n == v.len(),
            body == v@.drop_last(),
            trailing_digits(body) == trailing_digits(body.take(j as int)) + (n - 1 - j),
        decreases j,
    {
        assert(body.take(j as int).drop_last() =~= body.take(j - 1));
        j -= 1;
    }
    let digits: usize = n - 1 - j;
    assert(trailing_digits(body) == digits);
    if digits >= 1 && j >= 2 && v[j - 2] == ' ' && v[j - 1] == '(' {
        let mut k: usize = j - 2;
        assert(v@.subrange(0, k as int) =~= v@.take(k as int));
        let ghost head = v@.take(k as int);
        assert(head.take(k as int) =~= head);
        let start: usize = k;
        while k > 0 && strips_char(Strip::Whitespace, v[k - 1])
            invariant
                k <= start <= v.len(),
                head == v@.take(start as int),
                strip_end(head, Strip::Whitespace) == strip_end(
                    head.take(k as int),
                    Strip::Whitespace,
                ),
            decreases k,
        {
            assert(head.take(k as int).drop_last() =~= head.take(k - 1));
            k -= 1;
        }
        assert(head.take(k as int) =~= v@.subrange(0, k as int));
        let kept = slice_chars(&v, 0, k);
        string_of(&kept)
    } else {
        string_of(&v)
    }
}

/// `value` with a backslash put before each backslash, percent sign and
/// underscore, so that a prefix pattern matches it literally.
pub open spec fn like_escaped(value: Seq<char>) -> Seq<char>
    decreases value.len(),
{
    if value.len() == 0 {
        value
    } else if value[0] == '\\' || value[0] == '%' || value[0] == '_' {
        seq!['\\', value[0]] + like_escaped(value.skip(1))
    } else {
        seq![value[0]] + like_escaped(value.skip(1))
    }
}

/// Escapes the wildcard characters of a prefix pattern.
pub fn escape_like_pattern(value: &str) -> (out: String)
    ensures
        out@ == like_escaped(value@),
{
    let v = chars_of(value);
    let n = v.len();
    let mut out: Vec<char> = Vec::new();
    let mut i: usize = 0;
    assert(v@.skip(0) =~= v@);
    while i < n
        invariant
            i <= n == v.len(),
            out@ + like_escaped(v@.skip(i as int)) == like_escaped(v@),
        decreases n - i,
    {
        let ghost rest = v@.skip(i as int);
        let ghost before = out@;
        let c = v[i];
        assert(rest.skip(1) =~= v@.skip(i + 1));
        if c == '\\' || c == '%' || c == '_' {
            out.push('\\');
            out.push(c);
            assert(out@ + like_escaped(v@.skip(i + 1)) =~= before + like_escaped(rest));
        } else {
            out.push(c);
            assert(out@ + like_escaped(v@.skip(i + 1)) =~= before + like_escaped(rest));
        }
        i += 1;
    }
    assert(out@ + Seq::<char>::empty() =~= out@);
    string_of(&out)
}

} // verus!
