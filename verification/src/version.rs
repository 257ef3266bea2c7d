//! Package versions, their order, and when one version may stand in for another.

use semver::{BuildMetadata, Prerelease};
use std::cmp::Ordering;
use vstd::prelude::*;
use vstd::std_specs::cmp::{PartialEqSpec, PartialOrdSpec};

verus! {

/// The value of a [`Version`].
#[verifier::ext_equal]
pub struct VersionView {
    pub major: u64,
    pub minor: u64,
    pub patch: u64,
    pub pre: Seq<char>,
    pub build: Seq<char>,
}

/// Whether a character may stand in an identifier of a pre-release or of build metadata.
pub open spec fn is_identifier_char(c: char) -> bool {
    ||| '0' <= c <= '9'
    ||| 'A' <= c <= 'Z'
    ||| 'a' <= c <= 'z'
    ||| c == '-'
}

/// Whether a text is empty, or a row of nonempty identifiers with a dot between each two.
pub open spec fn is_dotted(text: Seq<char>) -> bool {
    &&& forall|i: int| 0 <= i < text.len() ==> is_identifier_char(#[trigger] text[i]) || text[i] == '.'
    &&& forall|i: int|
        0 <= i < text.len() && #[trigger] text[i] == '.' ==> 0 < i < text.len() - 1 && text[i + 1] != '.'
}

/// Whether the characters from `start` up to `end` are one whole identifier of a dotted text.
pub open spec fn is_segment(text: Seq<char>, start: int, end: int) -> bool {
    &&& 0 <= start < end <= text.len()
    &&& start == 0 || text[start - 1] == '.'
    &&& end == text.len() || text[end] == '.'
    &&& forall|i: int| start <= i < end ==> #[trigger] text[i] != '.'
}

/// Whether a text can be the pre-release part of a version: identifiers with dots between them,
/// in which a number of more than one digit does not begin with a zero.
pub open spec fn valid_prerelease(text: Seq<char>) -> bool {
    &&& is_dotted(text)
    &&& forall|start: int, end: int| #[trigger]
        is_segment(text, start, end) && start + 1 < end && text[start] == '0' ==> exists|i: int|
            start <= i < end && !('0' <= #[trigger] text[i] <= '9')
}

/// Whether a text can be the build metadata of a version: identifiers with dots between them.
pub open spec fn valid_build(text: Seq<char>) -> bool {
    is_dotted(text)
}

/// Whether the pre-release `a` has lower precedence than the pre-release `b`.
pub uninterp spec fn prerelease_precedes(a: Seq<char>, b: Seq<char>) -> bool;

/// Whether the build metadata `a` is ordered before the build metadata `b`.
pub uninterp spec fn build_precedes(a: Seq<char>, b: Seq<char>) -> bool;

/// Whether the pre-release `a` lies below the pre-release `b` as in a strict order: not the other
/// way round, what is above `b` is above `a`, and what is below `a` is below `b`.
pub open spec fn prerelease_below(a: Seq<char>, b: Seq<char>) -> bool {
    &&& prerelease_precedes(a, b)
    &&& !prerelease_precedes(b, a)
    &&& forall|c: Seq<char>|
        valid_prerelease(c) && #[trigger] prerelease_precedes(b, c) ==> prerelease_precedes(a, c)
    &&& forall|c: Seq<char>|
        valid_prerelease(c) && #[trigger] prerelease_precedes(c, a) ==> prerelease_precedes(c, b)
}

/// Whether the build metadata `a` lies below the build metadata `b` as in a strict order: not the
/// other way round, what is above `b` is above `a`, and what is below `a` is below `b`.
pub open spec fn build_below(a: Seq<char>, b: Seq<char>) -> bool {
    &&& build_precedes(a, b)
    &&& !build_precedes(b, a)
    &&& forall|c: Seq<char>|
        valid_build(c) && #[trigger] build_precedes(b, c) ==> build_precedes(a, c)
    &&& forall|c: Seq<char>|
        valid_build(c) && #[trigger] build_precedes(c, a) ==> build_precedes(c, b)
}

/// Build metadata are made of letters, digits, hyphens and dots, and every dot stands between two other
/// characters.
pub proof fn law_build_metadata_are_dotted_identifiers(text: Seq<char>)
    ensures
        valid_build(text) <==> (forall|i: int|
            0 <= i < text.len() ==> '0' <= #[trigger] text[i] <= '9' || 'A' <= text[i] <= 'Z' || 'a' <= text[i]
                <= 'z' || text[i] == '-' || (text[i] == '.' && 0 < i < text.len() - 1 && text[i + 1] != '.')),
{
}

/// A pre-release is made like build metadata, and none of its identifiers is a number of more than one
/// digit that begins with a zero.
pub proof fn law_pre_releases_have_no_leading_zeros(text: Seq<char>, start: int, end: int)
    ensures
        valid_prerelease(text) ==> valid_build(text),
        valid_prerelease(text) && 0 <= start && start + 1 < end <= text.len() && (start == 0 || text[start - 1]
            == '.') && (end == text.len() || text[end] == '.') && (forall|i: int|
            start <= i < end ==> '0' <= #[trigger] text[i] <= '9') ==> text[start] != '0',
        valid_build(text) && (forall|i: int|
            0 <= i < text.len() && #[trigger] text[i] == '0' ==> i > 0 && text[i - 1] != '.') ==> valid_prerelease(
            text,
        ),
{
    if valid_prerelease(text) && 0 <= start && start + 1 < end <= text.len() && (start == 0 || text[start - 1]
        == '.') && (end == text.len() || text[end] == '.') && (forall|i: int|
        start <= i < end ==> '0' <= #[trigger] text[i] <= '9') {
        assert(is_segment(text, start, end));
    }
}

/// Dotted identifiers are a pre-release exactly if each of them that is longer than one character and begins
/// with a zero has some character that is not a digit.
pub proof fn law_leading_zeros_need_a_letter(text: Seq<char>)
    ensures
        valid_prerelease(text) <==> valid_build(text) && (forall|start: int, end: int| #[trigger]
            is_segment(text, start, end) && text[start] == '0' && end - start > 1 ==> !(forall|i: int|
                start <= i < end ==> '0' <= #[trigger] text[i] <= '9')),
{
}

/// One identifier of a text reaches from the beginning or a dot to the end or the next dot, and is not empty.
pub proof fn law_identifiers_reach_from_dot_to_dot(text: Seq<char>, start: int, end: int)
    ensures
        is_segment(text, start, end) <==> 0 <= start < end <= text.len() && (start == 0 || text[start - 1] == '.')
            && (end == text.len() || text[end] == '.') && !text.subrange(start, end).contains('.'),
{
    if 0 <= start < end <= text.len() {
        let part = text.subrange(start, end);
        if is_segment(text, start, end) && part.contains('.') {
            let i = part.index_of('.');
            assert(text[start + i] == '.');
        }
        if !part.contains('.') {
            assert forall|i: int| start <= i < end implies #[trigger] text[i] != '.' by {
                assert(part[i - start] == text[i]);
            }
        }
    }
}

/// Calls `semver::Prerelease::new`, which accepts exactly the texts that [`valid_prerelease`]
/// describes.
#[verifier::external_body]
fn is_prerelease(text: &str) -> (valid: bool)
    ensures
        valid == valid_prerelease(text@),
{
    Prerelease::new(text).is_ok()
}

/// Calls `semver::BuildMetadata::new`, which accepts exactly the texts that [`valid_build`]
/// describes.
#[verifier::external_body]
fn is_build(text: &str) -> (valid: bool)
    ensures
        valid == valid_build(text@),
{
    BuildMetadata::new(text).is_ok()
}

/// Compares two pre-releases with `<` of `semver::Prerelease`. The result is named
/// [`prerelease_precedes`]; it is a strict total order, in which different texts never tie.
#[verifier::external_body]
fn prerelease_lt(a: &str, b: &str) -> (less: bool)
    requires
        valid_prerelease(a@),
        valid_prerelease(b@),
    ensures
        less == prerelease_precedes(a@, b@),
        less ==> prerelease_below(a@, b@),
        !less ==> a@ == b@ || prerelease_below(b@, a@),
{
    Prerelease::new(a).unwrap() < Prerelease::new(b).unwrap()
}

/// Compares two build metadata with `<` of `semver::BuildMetadata`. The result is named
/// [`build_precedes`]; it is a strict total order, in which different texts never tie.
#[verifier::external_body]
fn build_lt(a: &str, b: &str) -> (less: bool)
    requires
        valid_build(a@),
        valid_build(b@),
    ensures
        less == build_precedes(a@, b@),
        less ==> build_below(a@, b@),
        !less ==> a@ == b@ || build_below(b@, a@),
{
    BuildMetadata::new(a).unwrap() < BuildMetadata::new(b).unwrap()
}

impl VersionView {
    /// Whether the pre-release and the build metadata are well formed.
    pub open spec fn valid(self) -> bool {
        valid_prerelease(self.pre) && valid_build(self.build)
    }

    /// Whether two versions differ in nothing before the patch number.
    pub open spec fn same_line(self, other: Self) -> bool {
        self.major == other.major && self.minor == other.minor
    }

    /// Whether this version is smaller than another one: the first of major, minor and patch
    /// number, pre-release and build metadata in which they differ decides.
    pub open spec fn precedes(self, other: Self) -> bool {
        if self.major != other.major {
            self.major < other.major
        } else if self.minor != other.minor {
            self.minor < other.minor
        } else if self.patch != other.patch {
            self.patch < other.patch
        } else if self.pre != other.pre {
            prerelease_precedes(self.pre, other.pre)
        } else {
            self.build != other.build && build_precedes(self.build, other.build)
        }
    }

    /// Whether this version lies below another one as in a strict order: not the other way round,
    /// what is above `other` is above this one, and what is below this one is below `other`.
    pub open spec fn below(self, other: Self) -> bool {
        &&& self.precedes(other)
        &&& !other.precedes(self)
        &&& self != other
        &&& forall|c: Self| c.valid() && #[trigger] other.precedes(c) ==> self.precedes(c)
        &&& forall|c: Self| c.valid() && #[trigger] c.precedes(self) ==> c.precedes(other)
    }
}

/// A `semver` version number.
#[derive(Debug)]
pub struct Version {
    /// Incremented for incompatible changes.
    major: u64,
    /// Incremented for added functionality.
    minor: u64,
    /// Incremented for fixes.
    patch: u64,
    /// The pre-release identifiers, empty for a release.
    pre: String,
    /// The build metadata identifiers, empty if there are none.
    build: String,
}

impl View for Version {
    type V = VersionView;

    closed spec fn view(&self) -> VersionView {
        VersionView {
            major: self.major,
            minor: self.minor,
            patch: self.patch,
            pre: self.pre@,
            build: self.build@,
        }
    }
}

impl Version {
    /// The pre-release and the build metadata of every version are well formed.
    #[verifier::type_invariant]
    pub open spec fn well_formed(self) -> bool {
        self@.valid()
    }

    /// Creates a version from its parts. Gives nothing if the pre-release or the build metadata
    /// is not well formed.
    pub fn new(major: u64, minor: u64, patch: u64, pre: &str, build: &str) -> (version: Option<Self>)
        ensures
            version is Some <==> valid_prerelease(pre@) && valid_build(build@),
            version matches Some(v) ==> v@ == (VersionView { major, minor, patch, pre: pre@, build: build@ }),
    {
        if is_prerelease(pre) && is_build(build) {
            Some(Version { major, minor, patch, pre: pre.to_owned(), build: build.to_owned() })
        } else {
            None
        }
    }

    /// The major version number.
    pub fn major(&self) -> (major: u64)
        ensures
            major == self@.major,
    {
        self.major
    }

    /// The minor version number.
    pub fn minor(&self) -> (minor: u64)
        ensures
            minor == self@.minor,
    {
        self.minor
    }

    /// The patch version number.
    pub fn patch(&self) -> (patch: u64)
        ensures
            patch == self@.patch,
    {
        self.patch
    }

    /// The pre-release identifiers.
    pub fn pre(&self) -> (pre: &str)
        ensures
            pre@ == self@.pre,
    {
        self.pre.as_str()
    }

    /// The build metadata identifiers.
    pub fn build(&self) -> (build: &str)
        ensures
            build@ == self@.build,
    {
        self.build.as_str()
    }

    /// Whether this version is smaller than another one.
    pub fn precedes(&self, other: &Self) -> (less: bool)
        ensures
            less == self@.precedes(other@),
            less ==> self@.below(other@),
            !less ==> self@ == other@ || other@.below(self@),
    {
        proof {
            use_type_invariant(self);
            use_type_invariant(other);
        }
        if self.major != other.major {
            self.major < other.major
        } else if self.minor != other.minor {
            self.minor < other.minor
        } else if self.patch != other.patch {
            self.patch < other.patch
        } else if self.pre != other.pre {
            prerelease_lt(self.pre.as_str(), other.pre.as_str())
        } else {
            build_lt(self.build.as_str(), other.build.as_str())
        }
    }

    /// Whether two versions agree in every part.
    pub fn same(&self, other: &Self) -> (same: bool)
        ensures
            same == (self@ == other@),
    {
        self.major == other.major && self.minor == other.minor && self.patch == other.patch && self.pre
            == other.pre && self.build == other.build
    }
}

impl Clone for Version {
    fn clone(&self) -> (copy: Self)
        ensures
            copy@ == self@,
    {
        proof {
            use_type_invariant(self);
        }
        Version {
            major: self.major,
            minor: self.minor,
            patch: self.patch,
            pre: self.pre.clone(),
            build: self.build.clone(),
        }
    }
}

/// The value of a version that may be missing.
pub open spec fn version_view(version: Option<Version>) -> Option<VersionView> {
    match version {
        Some(v) => Some(v@),
        None => None,
    }
}

/// Whether a version that may be missing is well formed if it is there.
pub open spec fn version_valid(version: Option<VersionView>) -> bool {
    version matches Some(v) ==> v.valid()
}

/// Whether the version `actual` satisfies a request for the version `requested`. A missing
/// version requests anything; otherwise `actual` may be greater, but not before the patch number.
pub open spec fn version_matches(requested: Option<VersionView>, actual: Option<VersionView>) -> bool {
    match (requested, actual) {
        (None, _) => true,
        (Some(_), None) => false,
        (Some(a), Some(b)) => a.same_line(b) && (a == b || a.precedes(b)),
    }
}

/// Whether the version `new` satisfies a request for `old`, and every request that `old` satisfies.
pub open spec fn version_supersedes(new: Option<VersionView>, old: Option<VersionView>) -> bool {
    &&& version_matches(old, new)
    &&& forall|x: Option<VersionView>|
        version_valid(x) && #[trigger] version_matches(x, old) ==> version_matches(x, new)
}

/// Whether the order of two versions is known to be that of a strict total order, as it is once
/// they have been compared.
pub open spec fn version_compared(a: Option<VersionView>, b: Option<VersionView>) -> bool {
    match (a, b) {
        (Some(x), Some(y)) => if x.precedes(y) {
            x.below(y)
        } else {
            x == y || y.below(x)
        },
        _ => true,
    }
}

/// How two versions that may be missing compare: a missing version is less than all others.
pub open spec fn version_order(a: Option<VersionView>, b: Option<VersionView>) -> Ordering {
    match (a, b) {
        (None, None) => Ordering::Equal,
        (Some(_), None) => Ordering::Greater,
        (None, Some(_)) => Ordering::Less,
        (Some(x), Some(y)) => if x == y {
            Ordering::Equal
        } else if x.precedes(y) {
            Ordering::Less
        } else {
            Ordering::Greater
        },
    }
}

/// A missing version is a wildcard: every version satisfies a request for it, and it is less than all
/// other versions. Every version satisfies a request for itself.
pub proof fn law_missing_version_is_wildcard(version: Option<VersionView>)
    ensures
        version_matches(None, version),
        version is Some ==> version_order(None, version) == Ordering::Less && version_order(version, None)
            == Ordering::Greater,
        version_matches(version, version),
        version_order(version, version) == Ordering::Equal,
{
}

/// Numbers decide before anything else does: a smaller major number makes a version smaller, then a
/// smaller minor number, then a smaller patch number, each compared as a number.
pub proof fn law_smaller_numbers_precede(a: VersionView, b: VersionView)
    ensures
        a.major < b.major ==> a.precedes(b) && !b.precedes(a),
        a.major == b.major && a.minor < b.minor ==> a.precedes(b) && !b.precedes(a),
        a.major == b.major && a.minor == b.minor && a.patch < b.patch ==> a.precedes(b) && !b.precedes(a),
{
}

/// Where the numbers agree, the pre-releases decide, and where those agree too, the build metadata do.
/// No version is smaller than itself.
pub proof fn law_pre_release_and_build_decide_next(a: VersionView, b: VersionView)
    requires
        a.major == b.major,
        a.minor == b.minor,
        a.patch == b.patch,
    ensures
        a.pre != b.pre ==> (a.precedes(b) <==> prerelease_precedes(a.pre, b.pre)),
        a.pre == b.pre && a.build != b.build ==> (a.precedes(b) <==> build_precedes(a.build, b.build)),
        a.pre == b.pre && a.build == b.build ==> !a.precedes(b),
{
}

/// A version satisfies a request only if it has the requested major and minor number and is not smaller
/// than what is requested.
pub proof fn law_match_is_on_the_same_line(a: VersionView, b: VersionView)
    requires
        version_matches(Some(a), Some(b)),
    ensures
        a.major == b.major,
        a.minor == b.minor,
        a.patch <= b.patch,
        a.patch == b.patch && a.pre != b.pre ==> prerelease_precedes(a.pre, b.pre),
        a.patch == b.patch && a.pre == b.pre && a.build != b.build ==> build_precedes(a.build, b.build),
{
}

/// A version with the requested major and minor number that is not smaller than what is requested
/// satisfies the request.
pub proof fn law_greater_version_on_the_same_line_matches(a: VersionView, b: VersionView)
    requires
        a.major == b.major,
        a.minor == b.minor,
    ensures
        a.patch < b.patch ==> version_matches(Some(a), Some(b)),
        a.patch == b.patch && a.pre != b.pre && prerelease_precedes(a.pre, b.pre) ==> version_matches(
            Some(a),
            Some(b),
        ),
        a.patch == b.patch && a.pre == b.pre && a.build != b.build && build_precedes(a.build, b.build)
            ==> version_matches(Some(a), Some(b)),
        a.patch == b.patch && a.pre == b.pre && a.build == b.build ==> version_matches(Some(a), Some(b)),
{
}

/// Of two releases, one satisfies a request for the other exactly if they agree in major and minor
/// number and its patch number is at least as great.
pub proof fn law_releases_match_by_patch(a: VersionView, b: VersionView)
    requires
        a.pre.len() == 0 && a.build.len() == 0,
        b.pre.len() == 0 && b.build.len() == 0,
    ensures
        version_matches(Some(a), Some(b)) <==> a.major == b.major && a.minor == b.minor && a.patch <= b.patch,
{
    assert(a.pre =~= b.pre && a.build =~= b.build);
    if a.patch == b.patch && a.major == b.major && a.minor == b.minor {
        assert(a =~= b);
    }
}

/// A request for some version is not satisfied by a package without one, and a request for none by
/// every package.
pub proof fn law_missing_version_matches_no_request(version: VersionView, actual: Option<VersionView>)
    ensures
        !version_matches(Some(version), None),
        version_matches(None, actual),
{
}

/// Comparing goes by the numbers first, says that versions are equal only if they agree in every part,
/// and puts a missing version below all others.
pub proof fn law_comparing_goes_by_the_parts(a: VersionView, b: VersionView)
    ensures
        a.major < b.major ==> version_order(Some(a), Some(b)) == Ordering::Less && version_order(Some(b), Some(a))
            == Ordering::Greater,
        a.major == b.major && a.minor < b.minor ==> version_order(Some(a), Some(b)) == Ordering::Less
            && version_order(Some(b), Some(a)) == Ordering::Greater,
        a.major == b.major && a.minor == b.minor && a.patch < b.patch ==> version_order(Some(a), Some(b))
            == Ordering::Less && version_order(Some(b), Some(a)) == Ordering::Greater,
        a.major == b.major && a.minor == b.minor && a.patch == b.patch && a.pre != b.pre ==> version_order(
            Some(a),
            Some(b),
        ) == (if prerelease_precedes(a.pre, b.pre) { Ordering::Less } else { Ordering::Greater }),
        a.major == b.major && a.minor == b.minor && a.patch == b.patch && a.pre == b.pre && a.build != b.build
            ==> version_order(Some(a), Some(b)) == (if build_precedes(a.build, b.build) {
            Ordering::Less
        } else {
            Ordering::Greater
        }),
        version_order(Some(a), Some(b)) == Ordering::Equal <==> a.major == b.major && a.minor == b.minor
            && a.patch == b.patch && a.pre == b.pre && a.build == b.build,
        version_order(None, Some(b)) == Ordering::Less,
        version_order(Some(a), None) == Ordering::Greater,
        version_order(None, None) == Ordering::Equal,
{
    if a.major == b.major && a.minor == b.minor && a.patch == b.patch && a.pre == b.pre && a.build == b.build {
        assert(a =~= b);
    }
}

/// What stands for a version that may be missing is the version, if it is there, and `==` and `<` of
/// [`PartialVersionRef`] go by it.
pub proof fn law_version_stands_for_itself(a: Version, b: Version)
    ensures
        version_view(Some(a)) == Some(a@),
        version_view(None) == None::<VersionView>,
        PartialVersionRef(Some(&a))@ == Some(a@),
        PartialVersionRef(None)@ == None::<VersionView>,
        PartialVersionRef::obeys_eq_spec(),
        PartialVersionRef::obeys_partial_cmp_spec(),
        PartialVersionRef(Some(&a)).eq_spec(&PartialVersionRef(Some(&b))) <==> a@ == b@,
        !PartialVersionRef(Some(&a)).eq_spec(&PartialVersionRef(None)),
        !PartialVersionRef(None).eq_spec(&PartialVersionRef(Some(&b))),
        PartialVersionRef(None).eq_spec(&PartialVersionRef(None)),
        PartialVersionRef(Some(&a)).partial_cmp_spec(&PartialVersionRef(Some(&b))) == Some(
            version_order(Some(a@), Some(b@)),
        ),
        PartialVersionRef(None).partial_cmp_spec(&PartialVersionRef(Some(&b))) == Some(Ordering::Less),
        PartialVersionRef(Some(&a)).partial_cmp_spec(&PartialVersionRef(None)) == Some(Ordering::Greater),
        PartialVersionRef(None).partial_cmp_spec(&PartialVersionRef(None)) == Some(Ordering::Equal),
{
}

/// Copies a version that may be missing.
pub fn copy_version(version: &Option<Version>) -> (copy: Option<Version>)
    ensures
        version_view(copy) == version_view(*version),
        version_valid(version_view(copy)),
{
    match version {
        Some(v) => {
            proof {
                use_type_invariant(v);
            }
            Some(v.clone())
        },
        None => None,
    }
}

/// Whether two versions that may be missing are the same.
pub fn same_version(a: &Option<Version>, b: &Option<Version>) -> (same: bool)
    ensures
        same == (version_view(*a) == version_view(*b)),
{
    match (a, b) {
        (None, None) => true,
        (Some(x), Some(y)) => x.same(y),
        _ => false,
    }
}

/// A wrapper that can compare versions that may be missing, treating a missing one like a wildcard
/// that matches anything and is less than all other versions.
#[derive(Debug)]
pub struct PartialVersionRef<'a>(pub Option<&'a Version>);

impl<'a> View for PartialVersionRef<'a> {
    type V = Option<VersionView>;

    open spec fn view(&self) -> Option<VersionView> {
        match self.0 {
            Some(v) => Some(v@),
            None => None,
        }
    }
}

impl<'a> PartialVersionRef<'a> {
    /// Determines whether the `semver` equation `other = ^self` is satisfied, where only the patch
    /// number and what follows it may be greater.
    pub fn matches(&self, other: &Self) -> (matched: bool)
        ensures
            matched == version_matches(self@, other@),
            matched ==> version_supersedes(other@, self@),
    {
        match (self.0, other.0) {
            (None, None) => true,
            (Some(_), None) => false,
            (None, Some(_)) => true,
            (Some(a), Some(b)) => {
                proof {
                    use_type_invariant(a);
                    use_type_invariant(b);
                }
                a.major() == b.major() && a.minor() == b.minor() && (a.precedes(b) || a.same(b))
            },
        }
    }

    /// Compares two versions.
    pub fn cmp(&self, other: &Self) -> (order: Ordering)
        ensures
            order == version_order(self@, other@),
    {
        match (self.0, other.0) {
            (None, None) => Ordering::Equal,
            (Some(_), None) => Ordering::Greater,
            (None, Some(_)) => Ordering::Less,
            (Some(a), Some(b)) => if a.precedes(b) {
                Ordering::Less
            } else if a.same(b) {
                Ordering::Equal
            } else {
                Ordering::Greater
            },
        }
    }
}

impl<'a> PartialEq for PartialVersionRef<'a> {
    fn eq(&self, other: &Self) -> (same: bool) {
        match (self.0, other.0) {
            (None, None) => true,
            (Some(a), Some(b)) => a.same(b),
            _ => false,
        }
    }
}

impl<'a> vstd::std_specs::cmp::PartialEqSpecImpl for PartialVersionRef<'a> {
    open spec fn obeys_eq_spec() -> bool {
        true
    }

    open spec fn eq_spec(&self, other: &Self) -> bool {
        self@ == other@
    }
}

impl<'a> PartialOrd for PartialVersionRef<'a> {
    fn partial_cmp(&self, other: &Self) -> (order: Option<Ordering>) {
        Some(self.cmp(other))
    }
}

impl<'a> vstd::std_specs::cmp::PartialOrdSpecImpl for PartialVersionRef<'a> {
    open spec fn obeys_partial_cmp_spec() -> bool {
        true
    }

    open spec fn partial_cmp_spec(&self, other: &Self) -> Option<Ordering> {
        Some(version_order(self@, other@))
    }
}

} // verus!
