//! Path keys and the suffix filter.
//!
//! Every path entering the library is normalized to forward slashes, so that
//! a key produced by a build on one platform resolves the same way at run
//! time on any other. The emitter's filter excludes an entry when its
//! resolved location ends with one of the configured suffixes.

use vstd::prelude::*;
use vstd::string::StrSliceExecFns;
use vstd::string::StringExecFns;

verus! {

/// The slash-normalized form of a path: every backslash becomes a forward
/// slash, all other characters stay.
pub open spec fn norm_key(s: Seq<char>) -> Seq<char> {
    s.map_values(|c: char| if c == '\\' { '/' } else { c })
}

/// Relies on `String::push`: appends the given character to the end of the
/// string.
pub assume_specification[ String::push ](s: &mut String, ch: char)
    ensures
        final(s)@ == old(s)@.push(ch),
;

/// Normalization is idempotent: a normalized key passes through unchanged.
pub proof fn lemma_norm_key_idempotent(s: Seq<char>)
    ensures
        norm_key(norm_key(s)) == norm_key(s),
{
    assert(norm_key(norm_key(s)) =~= norm_key(s));
}

/// Turns a path into its lookup key by replacing each backslash with a
/// forward slash. Collection and lookup both go through this function, so
/// the same file is addressed by the same key on every platform.
pub fn as_key(path: &str) -> (r: String)
    ensures
        r@ == norm_key(path@),
{
    let n: usize = path.unicode_len();
    let mut out = String::new();
    let mut i: usize = 0;
    while i < n
        invariant
            i <= n,
            n == path@.len(),
            out@ == norm_key(path@.take(i as int)),
        decreases n - i,
    {
        let c = path.get_char(i);
        if c == '\\' {
            out.push('/');
        } else {
            out.push(c);
        }
        proof {
            assert(norm_key(path@.take(i + 1 as int)) =~= norm_key(path@.take(i as int)).push(
                if path@[i as int] == '\\' {
                    '/'
                } else {
                    path@[i as int]
                },
            ));
        }
        i += 1;
    }
    proof {
        assert(path@.take(n as int) =~= path@);
    }
    out
}

/// `suffix` stands at the end of `s`.
pub open spec fn is_suffix_of(suffix: Seq<char>, s: Seq<char>) -> bool {
    suffix.len() <= s.len() && s.skip(s.len() - suffix.len()) == suffix
}

/// Whether `s` ends with `suffix`, character by character.
pub fn str_ends_with(s: &str, suffix: &str) -> (r: bool)
    ensures
        r == is_suffix_of(suffix@, s@),
{
    let n: usize = s.unicode_len();
    let m: usize = suffix.unicode_len();
    if m > n {
        return false;
    }
    let mut i: usize = 0;
    while i < m
        invariant
            i <= m <= n,
            n == s@.len(),
            m == suffix@.len(),
            forall|j: int| 0 <= j < i ==> s@[n - m + j] == suffix@[j],
        decreases m - i,
    {
        if s.get_char(n - m + i) != suffix.get_char(i) {
            proof {
                assert(s@.skip(n - m)[i as int] == s@[n - m + i]);
            }
            return false;
        }
        i += 1;
    }
    proof {
        assert(s@.skip(n - m) =~= suffix@);
    }
    true
}

/// A path is excluded when it ends with at least one of the filter entries.
pub open spec fn excluded(path: Seq<char>, filters: Seq<Seq<char>>) -> bool {
    exists|i: int| 0 <= i < filters.len() && is_suffix_of(filters[i], path)
}

/// Whether the filter excludes `path`: true exactly when `path` ends with
/// one of the filter entries. A filter entry matching no path excludes
/// nothing.
pub fn is_excluded(path: &str, filters: &Vec<String>) -> (r: bool)
    ensures
        r == excluded(path@, filters.deep_view()),
{
    let mut i: usize = 0;
    while i < filters.len()
        invariant
            i <= filters@.len(),
            forall|j: int| 0 <= j < i ==> !is_suffix_of(filters.deep_view()[j], path@),
        decreases filters@.len() - i,
    {
        if str_ends_with(path, filters[i].as_str()) {
            assert(is_suffix_of(filters.deep_view()[i as int], path@));
            return true;
        }
        i += 1;
    }
    false
}

/// A location is absolute when its normalized form starts with a forward
/// slash.
pub open spec fn is_absolute(loc: Seq<char>) -> bool {
    loc.len() > 0 && loc[0] == '/'
}

/// The path the filter is matched against: the normalized location itself
/// when it is absolute or the manifest directory is empty, the normalized
/// location joined under the normalized manifest directory otherwise.
pub open spec fn resolved_location(manifest_dir: Seq<char>, loc: Seq<char>) -> Seq<char> {
    let n = norm_key(loc);
    if is_absolute(n) || manifest_dir.len() == 0 {
        n
    } else {
        norm_key(manifest_dir).push('/') + n
    }
}

/// Resolves a stored location against the manifest directory, normalizing
/// both halves.
pub fn resolve_location(manifest_dir: &str, loc: &str) -> (r: String)
    ensures
        r@ == resolved_location(manifest_dir@, loc@),
{
    let nloc = as_key(loc);
    let absolute = nloc.as_str().unicode_len() > 0 && nloc.as_str().get_char(0) == '/';
    if absolute || manifest_dir.unicode_len() == 0 {
        nloc
    } else {
        let mut out = as_key(manifest_dir);
        out.push('/');
        out.append(nloc.as_str());
        proof {
            assert(out@ =~= norm_key(manifest_dir@).push('/') + norm_key(loc@));
        }
        out
    }
}

} // verus!
