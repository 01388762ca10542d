//! File paths as sequences of components.
//!
//! Two spellings of one path (`a//b`, `a/./b`) have the same components, and
//! paths are compared, ordered and nested by components alone.

use std::path::{Component, Path};

use vstd::prelude::*;
use vstd::string::*;

use crate::order::{
    compare_text, lemma_text_asymmetric, lemma_text_level, lemma_text_negatively_transitive,
    text_precedes, SortKey, Standing,
};
use crate::text::same_text;

verus! {

/// One component of a path, as a value.
pub enum Part {
    /// A Windows prefix such as a drive.
    Prefix(Seq<char>),
    Root,
    /// A leading `.`.
    Current,
    /// A `..`.
    Parent,
    Name(Seq<char>),
}

/// One component of a path.
#[derive(Debug)]
pub enum PathPart {
    /// A Windows prefix such as a drive.
    Prefix(String),
    Root,
    /// A leading `.`.
    Current,
    /// A `..`.
    Parent,
    Name(String),
}

impl View for PathPart {
    type V = Part;

    open spec fn view(&self) -> Part {
        match self {
            PathPart::Prefix(text) => Part::Prefix(text@),
            PathPart::Root => Part::Root,
            PathPart::Current => Part::Current,
            PathPart::Parent => Part::Parent,
            PathPart::Name(text) => Part::Name(text@),
        }
    }
}

impl PathPart {
    fn copy(&self) -> (r: PathPart)
        ensures
            r@ == self@,
    {
        match self {
            PathPart::Prefix(text) => PathPart::Prefix(text.clone()),
            PathPart::Root => PathPart::Root,
            PathPart::Current => PathPart::Current,
            PathPart::Parent => PathPart::Parent,
            PathPart::Name(text) => PathPart::Name(text.clone()),
        }
    }

    fn rank(&self) -> (r: u32)
        ensures
            r == part_rank(self@),
    {
        match self {
            PathPart::Prefix(_) => 0,
            PathPart::Root => 1,
            PathPart::Current => 2,
            PathPart::Parent => 3,
            PathPart::Name(_) => 4,
        }
    }

    fn text(&self) -> (r: &str)
        ensures
            r@ == part_text(self@),
    {
        proof {
            reveal_strlit("");
        }
        match self {
            PathPart::Prefix(text) => text.as_str(),
            PathPart::Name(text) => text.as_str(),
            _ => "",
        }
    }

    fn same(&self, other: &PathPart) -> (r: bool)
        ensures
            r == (self@ == other@),
    {
        self.rank() == other.rank() && same_text(self.text(), other.text())
    }
}

// ---------------------------------------------------------------------------
// Components of a text

/// The text up to the first slash.
pub open spec fn first_segment(text: Seq<char>) -> Seq<char>
    decreases text.len(),
{
    if text.len() == 0 || text[0] == '/' {
        Seq::empty()
    } else {
        seq![text[0]] + first_segment(text.drop_first())
    }
}

/// The components of the segments of a text behind the first one: empty ones
/// and `.` leave nothing behind.
pub open spec fn later_parts(text: Seq<char>) -> Seq<Part>
    decreases text.len(),
{
    let segment = first_segment(text);
    let here: Seq<Part> = if segment.len() == 0 || segment == seq!['.'] {
        Seq::empty()
    } else if segment == seq!['.', '.'] {
        seq![Part::Parent]
    } else {
        seq![Part::Name(segment)]
    };
    if segment.len() < text.len() {
        here + later_parts(text.skip(segment.len() as int + 1))
    } else {
        here
    }
}

/// The components of a portable text: a leading slash is the root, a leading
/// `.` is kept, and everything else is as behind the first segment.
pub open spec fn portable_parts(text: Seq<char>) -> Seq<Part> {
    if text.len() > 0 && text[0] == '/' {
        seq![Part::Root] + later_parts(text)
    } else if first_segment(text) == seq!['.'] {
        seq![Part::Current] + later_parts(text)
    } else {
        later_parts(text)
    }
}

/// A text that every platform splits alike: no backslash, no colon, and no
/// double slash in front.
pub open spec fn is_portable(text: Seq<char>) -> bool {
    &&& !text.contains('\\')
    &&& !text.contains(':')
    &&& !(text.len() >= 2 && text[0] == '/' && text[1] == '/')
}

/// The components that the platform the crate is built for finds in a text.
pub uninterp spec fn platform_parts(text: Seq<char>) -> Seq<Part>;

/// The components of a text.
pub open spec fn path_parts(text: Seq<char>) -> Seq<Part> {
    if is_portable(text) {
        portable_parts(text)
    } else {
        platform_parts(text)
    }
}

/// The values of a vector of components.
pub open spec fn parts_view(parts: Seq<PathPart>) -> Seq<Part> {
    parts.map_values(|part: PathPart| part@)
}

/// Components that do not begin with a drive or another prefix of a platform.
pub open spec fn is_unprefixed(parts: Seq<Part>) -> bool {
    parts.len() > 0 ==> !(parts[0] is Prefix)
}

/// Components that begin with no prefix of a platform but a drive's, such as `C:`.
pub open spec fn is_ordinary(parts: Seq<Part>) -> bool {
    parts.len() > 0 ==> (parts[0] matches Part::Prefix(drive) ==> drive.len() == 2 && drive[1]
        == ':')
}

/// The place of the first component behind a prefix.
pub open spec fn lead(parts: Seq<Part>) -> int {
    if is_unprefixed(parts) {
        0
    } else {
        1
    }
}

/// Components as an ordinary path has them: the root and the current directory
/// stand in front only.
pub open spec fn is_regular(parts: Seq<Part>) -> bool {
    is_ordinary(parts) ==> forall|k: int|
        lead(parts) < k < parts.len() ==> (#[trigger] parts[k]) is Name || parts[k] is Parent
}

/// Calls `std::path::Path::components`. On a portable text the components are
/// those of its documentation: repeated separators and trailing ones are
/// dropped, `.` is dropped but in front, `..` is kept. On any other text they
/// are what the platform makes of it, a function of the text alone. On no text
/// without a prefix, or with that of a drive, does a root or a `.` come but in front
/// of the other components.
#[verifier::external_body]
fn split_path(text: &str) -> (r: Vec<PathPart>)
    ensures
        parts_view(r@) == (if is_portable(text@) {
            portable_parts(text@)
        } else {
            platform_parts(text@)
        }),
        is_regular(parts_view(r@)),
{
    Path::new(text)
        .components()
        .map(|part| match part {
            Component::Prefix(prefix) => PathPart::Prefix(
                prefix.as_os_str().to_string_lossy().into_owned(),
            ),
            Component::RootDir => PathPart::Root,
            Component::CurDir => PathPart::Current,
            Component::ParentDir => PathPart::Parent,
            Component::Normal(name) => PathPart::Name(name.to_string_lossy().into_owned()),
        })
        .collect()
}

// ---------------------------------------------------------------------------
// Order and nesting

pub open spec fn part_rank(part: Part) -> nat {
    match part {
        Part::Prefix(_) => 0,
        Part::Root => 1,
        Part::Current => 2,
        Part::Parent => 3,
        Part::Name(_) => 4,
    }
}

pub open spec fn part_text(part: Part) -> Seq<char> {
    match part {
        Part::Prefix(text) => text,
        Part::Name(text) => text,
        _ => Seq::empty(),
    }
}

pub open spec fn part_precedes(a: Part, b: Part) -> bool {
    part_rank(a) < part_rank(b) || part_rank(a) == part_rank(b) && text_precedes(
        part_text(a),
        part_text(b),
    )
}

/// Lexicographic by component.
pub open spec fn path_precedes(a: Seq<Part>, b: Seq<Part>) -> bool
    decreases a.len(),
{
    b.len() > 0 && (a.len() == 0 || part_precedes(a[0], b[0]) || a[0] == b[0] && path_precedes(
        a.drop_first(),
        b.drop_first(),
    ))
}

proof fn lemma_part_level(a: Part, b: Part)
    ensures
        !part_precedes(a, b) && !part_precedes(b, a) <==> a == b,
{
    lemma_text_level(part_text(a), part_text(b));
    lemma_text_asymmetric(part_text(a), part_text(a));
}

pub proof fn lemma_path_asymmetric(a: Seq<Part>, b: Seq<Part>)
    ensures
        path_precedes(a, b) ==> !path_precedes(b, a),
    decreases a.len(),
{
    if a.len() > 0 && b.len() > 0 {
        lemma_text_asymmetric(part_text(a[0]), part_text(b[0]));
        lemma_part_level(a[0], b[0]);
        lemma_path_asymmetric(a.drop_first(), b.drop_first());
    }
}

pub proof fn lemma_path_negatively_transitive(a: Seq<Part>, b: Seq<Part>, c: Seq<Part>)
    ensures
        !path_precedes(a, b) && !path_precedes(b, c) ==> !path_precedes(a, c),
    decreases a.len(),
{
    if a.len() > 0 && b.len() > 0 && c.len() > 0 {
        let (x, y, z) = (part_text(a[0]), part_text(b[0]), part_text(c[0]));
        lemma_text_negatively_transitive(x, y, z);
        lemma_text_negatively_transitive(x, z, y);
        lemma_text_negatively_transitive(y, x, z);
        lemma_text_asymmetric(x, y);
        lemma_text_asymmetric(y, z);
        lemma_text_asymmetric(x, z);
        lemma_part_level(a[0], b[0]);
        lemma_part_level(b[0], c[0]);
        lemma_part_level(a[0], c[0]);
        lemma_path_negatively_transitive(a.drop_first(), b.drop_first(), c.drop_first());
    }
}

/// Paths on a level have the same components.
pub proof fn lemma_path_level(a: Seq<Part>, b: Seq<Part>)
    ensures
        !path_precedes(a, b) && !path_precedes(b, a) <==> a == b,
    decreases a.len(),
{
    if a.len() > 0 && b.len() > 0 {
        lemma_part_level(a[0], b[0]);
        lemma_path_level(a.drop_first(), b.drop_first());
        assert(a =~= seq![a[0]] + a.drop_first());
        assert(b =~= seq![b[0]] + b.drop_first());
    } else if a.len() == 0 && b.len() == 0 {
        assert(a =~= b);
    }
}

/// Whether a path lies at or below another: its components begin with those.
pub open spec fn is_under(path: Seq<Part>, base: Seq<Part>) -> bool {
    base.len() <= path.len() && path.take(base.len() as int) == base
}

/// The file name of a path: its last component, where that is a name.
pub open spec fn name_of(path: Seq<Part>) -> Option<Seq<char>> {
    if path.len() > 0 {
        match path.last() {
            Part::Name(name) => Some(name),
            _ => None,
        }
    } else {
        None
    }
}

// ---------------------------------------------------------------------------
// The path type

/// A path: its spelling and its components.
#[derive(Debug)]
pub struct DocPath {
    text: String,
    parts: Vec<PathPart>,
}

impl View for DocPath {
    type V = Seq<Part>;

    /// The components.
    closed spec fn view(&self) -> Seq<Part> {
        parts_view(self.parts@)
    }
}

impl DocPath {
    /// The spelling.
    pub closed spec fn spelling(&self) -> Seq<char> {
        self.text@
    }

    #[verifier::type_invariant]
    spec fn split(&self) -> bool {
        parts_view(self.parts@) == path_parts(self.text@) && is_regular(path_parts(self.text@))
    }

    /// The path that a text spells.
    pub fn new(text: String) -> (r: DocPath)
        ensures
            r.spelling() == text@,
            r@ == path_parts(text@),
    {
        let parts = split_path(text.as_str());
        DocPath { text, parts }
    }

    /// The spelling.
    pub fn as_str(&self) -> (r: &str)
        ensures
            r@ == self.spelling(),
            self@ == path_parts(r@),
            is_regular(self@),
    {
        proof {
            use_type_invariant(self);
        }
        self.text.as_str()
    }

    /// Whether two paths have the same components.
    pub fn same(&self, other: &DocPath) -> (r: bool)
        ensures
            r == (self@ == other@),
    {
        if self.parts.len() != other.parts.len() {
            return false;
        }
        self.starts_with(other)
    }

    /// Whether this path lies at or below `base`.
    pub fn starts_with(&self, base: &DocPath) -> (r: bool)
        ensures
            r == is_under(self@, base@),
            self@.len() == base@.len() ==> r == (self@ == base@),
    {
        if base.parts.len() > self.parts.len() {
            return false;
        }
        let mut i: usize = 0;
        while i < base.parts.len()
            invariant
                i <= base.parts@.len() <= self.parts@.len(),
                forall|k: int| 0 <= k < i ==> self@[k] == #[trigger] base@[k],
            decreases base.parts.len() - i,
        {
            if !self.parts[i].same(&base.parts[i]) {
                assert(self@[i as int] != base@[i as int]);
                assert(self@.take(base@.len() as int)[i as int] == self@[i as int]);
                return false;
            }
            i += 1;
        }
        assert(self@.take(base@.len() as int) =~= base@);
        assert(self@.len() == base@.len() ==> self@.take(base@.len() as int) =~= self@);
        true
    }

    /// The file name: the last component, where that is a name.
    pub fn file_name(&self) -> (r: Option<&str>)
        ensures
            match r {
                Some(name) => name_of(self@) == Some(name@),
                None => name_of(self@) is None,
            },
    {
        let n: usize = self.parts.len();
        if n == 0 {
            return None;
        }
        assert(self@.last() == self.parts@[n - 1]@);
        match &self.parts[n - 1] {
            PathPart::Name(name) => Some(name.as_str()),
            _ => None,
        }
    }

    /// Number of components.
    pub fn len(&self) -> (r: usize)
        ensures
            r == self@.len(),
    {
        self.parts.len()
    }

    /// The component at a place.
    pub fn part(&self, i: usize) -> (r: &PathPart)
        requires
            i < self@.len(),
        ensures
            r@ == self@[i as int],
    {
        &self.parts[i]
    }
}

impl Clone for DocPath {
    fn clone(&self) -> (r: DocPath)
        ensures
            r@ == self@,
            r.spelling() == self.spelling(),
    {
        let mut parts: Vec<PathPart> = Vec::new();
        proof {
            use_type_invariant(self);
        }
        let mut i: usize = 0;
        while i < self.parts.len()
            invariant
                i <= self.parts@.len(),
                parts@.len() == i,
                forall|k: int| 0 <= k < i ==> (#[trigger] parts@[k])@ == self.parts@[k]@,
            decreases self.parts.len() - i,
        {
            parts.push(self.parts[i].copy());
            i += 1;
        }
        assert(parts_view(parts@) =~= parts_view(self.parts@));
        DocPath { text: self.text.clone(), parts }
    }
}

impl SortKey for DocPath {
    open spec fn precedes(&self, other: &Self) -> bool {
        path_precedes(self@, other@)
    }

    proof fn asymmetric(&self, other: &Self) {
        lemma_path_asymmetric(self@, other@);
    }

    proof fn negatively_transitive(&self, middle: &Self, other: &Self) {
        lemma_path_negatively_transitive(self@, middle@, other@);
    }

    fn compare(&self, other: &Self) -> (r: Standing) {
        let mut i: usize = 0;
        assert(self@.skip(0) =~= self@);
        assert(other@.skip(0) =~= other@);
        while i < self.parts.len() && i < other.parts.len()
            invariant
                i <= self.parts@.len(),
                i <= other.parts@.len(),
                path_precedes(self@, other@) == path_precedes(
                    self@.skip(i as int),
                    other@.skip(i as int),
                ),
                path_precedes(other@, self@) == path_precedes(
                    other@.skip(i as int),
                    self@.skip(i as int),
                ),
            decreases self.parts.len() - i,
        {
            let a = &self.parts[i];
            let b = &other.parts[i];
            let ghost left = self@.skip(i as int);
            let ghost right = other@.skip(i as int);
            proof {
                assert(left[0] == a@ && right[0] == b@);
                assert(left.drop_first() =~= self@.skip(i as int + 1));
                assert(right.drop_first() =~= other@.skip(i as int + 1));
                lemma_part_level(a@, b@);
                lemma_text_asymmetric(part_text(a@), part_text(b@));
            }
            if a.rank() < b.rank() {
                return Standing::Before;
            }
            if b.rank() < a.rank() {
                return Standing::After;
            }
            match compare_text(a.text(), b.text()) {
                Standing::Level => {},
                decided => {
                    return decided;
                },
            }
            i += 1;
        }
        if i < other.parts.len() {
            Standing::Before
        } else if i < self.parts.len() {
            Standing::After
        } else {
            Standing::Level
        }
    }
}

} // verus!
