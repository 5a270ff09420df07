//! Reference names: telling branches and tags apart, taking the short name
//! out of a full reference name, and git namespaces.

use crate::path::{join, separator, split_on};
use vstd::prelude::*;
use vstd::utf8::{encode_utf8, valid_utf8};

verus! {

/// Whether the regular expression `pattern` matches somewhere in `text`
/// (never, when `pattern` does not compile).
pub uninterp spec fn regex_is_match(pattern: Seq<char>, text: Seq<char>) -> bool;

/// The text of capture group `group` of the first match of `pattern` in
/// `text`, if there is a match and the group took part in it.
pub uninterp spec fn regex_group(pattern: Seq<char>, text: Seq<char>, group: nat) -> Option<
    Seq<char>,
>;

/// The texts of the successive non-overlapping matches of `pattern` in `text`.
pub uninterp spec fn regex_matches(pattern: Seq<char>, text: Seq<char>) -> Seq<Seq<char>>;

/// Relies on `regex::Regex::new` and `Regex::is_match`: whether the compiled
/// pattern matches anywhere in the text; a pattern that fails to compile
/// matches nothing.
#[verifier::external_body]
fn is_match(pattern: &str, text: &str) -> (r: bool)
    ensures
        r == regex_is_match(pattern@, text@),
{
    match regex::Regex::new(pattern) {
        Ok(re) => re.is_match(text),
        Err(_) => false,
    }
}

/// Relies on `regex::Regex::captures` and `Captures::get`: the text of one
/// capture group of the first match.
#[verifier::external_body]
fn capture_group(pattern: &str, text: &str, group: usize) -> (r: Option<String>)
    ensures
        r is Some <==> regex_group(pattern@, text@, group as nat) is Some,
        r matches Some(s) ==> s@ == regex_group(pattern@, text@, group as nat)->Some_0,
{
    let re = match regex::Regex::new(pattern) {
        Ok(re) => re,
        Err(_) => return None,
    };
    let caps = match re.captures(text) {
        Some(caps) => caps,
        None => return None,
    };
    match caps.get(group) {
        Some(m) => Some(m.as_str().to_string()),
        None => None,
    }
}

/// Relies on `regex::Regex::find_iter`: the texts of the successive matches.
#[verifier::external_body]
fn find_all(pattern: &str, text: &str) -> (r: Vec<String>)
    ensures
        r@.map_values(|s: String| s@) == regex_matches(pattern@, text@),
{
    match regex::Regex::new(pattern) {
        Ok(re) => re.find_iter(text).map(|m| m.as_str().to_string()).collect(),
        Err(_) => Vec::new(),
    }
}

/// Relies on `std::str::from_utf8`: succeeds exactly on valid UTF-8, and the
/// text then encodes to the given bytes.
#[verifier::external_body]
fn utf8_text(bytes: &[u8]) -> (r: Option<String>)
    ensures
        r is Some <==> valid_utf8(bytes@),
        r matches Some(s) ==> encode_utf8(s@) == bytes@,
{
    match std::str::from_utf8(bytes) {
        Ok(s) => Some(s.to_string()),
        Err(_) => None,
    }
}

/// The pattern of a full reference name, with the short name as its third group.
pub const REFNAME_PATTERN: &'static str = "(refs/namespaces/.*)*(refs/heads/|refs/remotes/|refs/tags/)(.*)";

/// The pattern of a tag's reference name.
pub const TAG_PATTERN: &'static str = "refs/tags/.*";

/// The pattern of a branch's reference name, local or remote.
pub const BRANCH_PATTERN: &'static str = "refs/heads/.*|refs/remotes/.*/.*";

/// The pattern of one level of namespace in a reference name.
pub const NAMESPACE_PATTERN: &'static str = "refs/namespaces/([^/]+)/";

/// The short name in a full reference name: what follows `refs/heads/`,
/// `refs/remotes/` or `refs/tags/`, past any namespaces. The name itself is
/// the error when it has no such part.
pub fn try_extract_refname(spec: &str) -> (r: Result<String, String>)
    ensures
        match regex_group(REFNAME_PATTERN@, spec@, 3) {
            Some(g) => r matches Ok(s) && s@ == g,
            None => r matches Err(s) && s@ == spec@,
        },
{
    match capture_group(REFNAME_PATTERN, spec, 3) {
        Some(s) => Ok(s),
        None => Err(String::from_str(spec)),
    }
}

/// Whether a reference, by its name, is a tag; a reference whose name could
/// not be read is not.
pub fn is_tag(name: Option<&str>) -> (r: bool)
    ensures
        r == match name {
            Some(n) => regex_is_match(TAG_PATTERN@, n@),
            None => false,
        },
{
    match name {
        Some(n) => is_match(TAG_PATTERN, n),
        None => false,
    }
}

/// Whether a reference, by its name, is a local or remote branch; a
/// reference whose name could not be read is not.
pub fn is_branch(name: Option<&str>) -> (r: bool)
    ensures
        r == match name {
            Some(n) => regex_is_match(BRANCH_PATTERN@, n@),
            None => false,
        },
{
    match name {
        Some(n) => is_match(BRANCH_PATTERN, n),
        None => false,
    }
}

/// The pieces of `text` between separators, each as a string.
pub fn split_text(text: &str) -> (r: Vec<String>)
    ensures
        r@.map_values(|s: String| s@) == split_on(text@),
{
    let n = text.unicode_len();
    let mut out: Vec<String> = Vec::new();
    let mut start: usize = 0;
    let mut i: usize = 0;
    while i < n
        invariant
            n == text@.len(),
            start <= i <= n,
            split_on(text@.take(i as int)).len() == out@.len() + 1,
            forall|k: int|
                0 <= k < out@.len() ==> #[trigger] out@[k]@ == split_on(text@.take(i as int))[k],
            split_on(text@.take(i as int)).last() == text@.subrange(start as int, i as int),
        decreases n - i,
    {
        assert(text@.take(i + 1).drop_last() =~= text@.take(i as int));
        proof {
            crate::path::lemma_split_len(text@.take(i as int));
        }
        if text.get_char(i) == '/' {
            let piece = text.substring_char(start, i);
            out.push(String::from_str(piece));
            start = i + 1;
            assert(text@.subrange(start as int, i + 1) =~= Seq::<char>::empty());
        } else {
            assert(text@.subrange(start as int, i + 1) =~= text@.subrange(start as int, i as int).push(
                text@[i as int],
            ));
        }
        i = i + 1;
    }
    assert(text@.take(n as int) =~= text@);
    let piece = text.substring_char(start, n);
    out.push(String::from_str(piece));
    assert(out@.map_values(|s: String| s@) =~= split_on(text@));
    out
}

/// `s` with every leading copy of `prefix` removed.
pub open spec fn trim_prefix(s: Seq<char>, prefix: Seq<char>) -> Seq<char>
    decreases s.len(),
{
    if prefix.len() > 0 && prefix.len() <= s.len() && s.take(prefix.len() as int) == prefix {
        trim_prefix(s.skip(prefix.len() as int), prefix)
    } else {
        s
    }
}

/// Whether `s` starts with `prefix`.
fn starts_with(s: &str, prefix: &str) -> (r: bool)
    ensures
        r == (prefix@.len() <= s@.len() && s@.take(prefix@.len() as int) == prefix@),
{
    let n = s.unicode_len();
    let m = prefix.unicode_len();
    if m > n {
        return false;
    }
    let mut i: usize = 0;
    while i < m
        invariant
            n == s@.len(),
            m == prefix@.len(),
            m <= n,
            i <= m,
            forall|k: int| 0 <= k < i ==> s@[k] == prefix@[k],
        decreases m - i,
    {
        if s.get_char(i) != prefix.get_char(i) {
            assert(s@.take(m as int)[i as int] != prefix@[i as int]);
            return false;
        }
        i = i + 1;
    }
    assert(s@.take(m as int) =~= prefix@);
    true
}

/// `s` with every leading copy of `prefix` removed.
fn trim_start_matches(s: &str, prefix: &str) -> (r: String)
    ensures
        r@ == trim_prefix(s@, prefix@),
{
    let m = prefix.unicode_len();
    if m == 0 {
        return String::from_str(s);
    }
    let mut rest = String::from_str(s);
    while starts_with(rest.as_str(), prefix)
        invariant
            m == prefix@.len(),
            m > 0,
            trim_prefix(rest@, prefix@) == trim_prefix(s@, prefix@),
        decreases rest@.len(),
    {
        let n = rest.as_str().unicode_len();
        let tail = String::from_str(rest.as_str().substring_char(m, n));
        rest = tail;
    }
    rest
}

/// `s` with every trailing separator removed.
fn trim_end_separators(s: &str) -> (r: String)
    ensures
        r@ == crate::path::trim_end(s@),
{
    let n = s.unicode_len();
    let mut end: usize = n;
    assert(s@.take(n as int) =~= s@);
    while end > 0 && s.get_char(end - 1) == '/'
        invariant
            n == s@.len(),
            end <= n,
            crate::path::trim_end(s@) == crate::path::trim_end(s@.take(end as int)),
        decreases end,
    {
        assert(s@.take(end as int).drop_last() =~= s@.take(end - 1));
        end = end - 1;
    }
    let r = String::from_str(s.substring_char(0, end));
    assert(r@ =~= s@.take(end as int));
    r
}

/// A git namespace; namespaces nest, so `foo/bar` is the levels `foo` and `bar`.
#[derive(Debug, Clone, PartialEq, Eq)]
pub struct Namespace {
    values: Vec<String>,
}

/// The levels of the namespaces a reference name lies in: each match of
/// `refs/namespaces/<level>/`, with its fixed parts taken off.
pub open spec fn namespace_levels(name: Seq<char>) -> Seq<Seq<char>> {
    regex_matches(NAMESPACE_PATTERN@, name).map_values(
        |m: Seq<char>| crate::path::trim_end(trim_prefix(m, "refs/namespaces/"@)),
    )
}

impl View for Namespace {
    type V = Seq<Seq<char>>;

    closed spec fn view(&self) -> Seq<Seq<char>> {
        self.values@.map_values(|s: String| s@)
    }
}

impl Namespace {
    /// The namespace written as its levels separated by `/`.
    pub fn parse(namespace: &str) -> (r: Namespace)
        ensures
            r@ == split_on(namespace@),
    {
        Namespace { values: split_text(namespace) }
    }

    /// The namespace written in UTF-8 bytes; `None` when they are not UTF-8.
    pub fn from_bytes(namespace: &[u8]) -> (r: Option<Namespace>)
        ensures
            r is Some <==> valid_utf8(namespace@),
            r matches Some(n) ==> exists|s: Seq<char>| encode_utf8(s) == namespace@ && n@ == split_on(s),
    {
        match utf8_text(namespace) {
            Some(s) => Some(Namespace::parse(s.as_str())),
            None => None,
        }
    }

    /// The namespaces that a full reference name lies in.
    pub fn from_reference_name(name: &str) -> (r: Namespace)
        ensures
            r@ == namespace_levels(name@),
    {
        let found = find_all(NAMESPACE_PATTERN, name);
        let ghost ms = found@.map_values(|s: String| s@);
        let mut values: Vec<String> = Vec::new();
        let mut i: usize = 0;
        while i < found.len()
            invariant
                ms == found@.map_values(|s: String| s@),
                ms == regex_matches(NAMESPACE_PATTERN@, name@),
                i <= found@.len(),
                values@.len() == i,
                forall|k: int|
                    0 <= k < i ==> #[trigger] values@[k]@ == crate::path::trim_end(
                        trim_prefix(ms[k], "refs/namespaces/"@),
                    ),
            decreases found@.len() - i,
        {
            let start = trim_start_matches(found[i].as_str(), "refs/namespaces/");
            values.push(trim_end_separators(start.as_str()));
            i = i + 1;
        }
        let r = Namespace { values };
        assert(r@ =~= namespace_levels(name@));
        r
    }

    /// The levels of the namespace, outermost first.
    pub fn values(&self) -> (r: &Vec<String>)
        ensures
            r@.map_values(|s: String| s@) == self@,
    {
        &self.values
    }

    /// The namespace written out: its levels separated by `/`.
    pub fn to_text(&self) -> (r: String)
        ensures
            r@ == join(self@),
    {
        let mut out = String::new();
        let mut i: usize = 0;
        while i < self.values.len()
            invariant
                i <= self@.len(),
                self@.len() == self.values@.len(),
                out@ == join(self@.take(i as int)),
            decreases self.values@.len() - i,
        {
            assert(self@.take(i + 1).drop_last() =~= self@.take(i as int));
            if i > 0 {
                out.append("/");
                proof {
                    reveal_strlit("/");
                }
            }
            out.append(self.values[i].as_str());
            assert(out@ =~= join(self@.take(i + 1)));
            i = i + 1;
        }
        assert(self@.take(i as int) =~= self@);
        out
    }
}

/// Why a switch to a named reference was refused.
#[derive(Debug, Clone, PartialEq, Eq)]
pub enum SwitchError {
    /// The name resolves, but not to a branch.
    NotBranch(String),
    /// The name resolves, but not to a tag.
    NotTag(String),
}

/// Allows a switch to the branch `name` only where its reference, by its
/// full name, is a local or remote branch.
pub fn check_branch(name: &str, reference_name: Option<&str>) -> (r: Result<(), SwitchError>)
    ensures
        r is Ok <==> match reference_name {
            Some(n) => regex_is_match(BRANCH_PATTERN@, n@),
            None => false,
        },
        r matches Err(e) ==> e matches SwitchError::NotBranch(s) && s@ == name@,
{
    if is_branch(reference_name) {
        Ok(())
    } else {
        Err(SwitchError::NotBranch(String::from_str(name)))
    }
}

/// Allows a switch to the tag `name` only where its reference, by its full
/// name, is a tag.
pub fn check_tag(name: &str, reference_name: Option<&str>) -> (r: Result<(), SwitchError>)
    ensures
        r is Ok <==> match reference_name {
            Some(n) => regex_is_match(TAG_PATTERN@, n@),
            None => false,
        },
        r matches Err(e) ==> e matches SwitchError::NotTag(s) && s@ == name@,
{
    if is_tag(reference_name) {
        Ok(())
    } else {
        Err(SwitchError::NotTag(String::from_str(name)))
    }
}

} // verus!
