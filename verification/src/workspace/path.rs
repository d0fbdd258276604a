//! Paths below a workspace, and which of them matter.
use vstd::prelude::*;
use vstd::utf8::encode_utf8;

use std::path::Prefix;

verus! {

// ---------------------------------------------------------------------------
// Paths
// ---------------------------------------------------------------------------

/// The prefix of a path on Windows, taken apart. How it was spelt is gone: a
/// drive is its letter.
#[derive(Debug, PartialEq, Eq)]
pub enum PathPrefix {
    Verbatim(Vec<u8>),
    VerbatimUNC(Vec<u8>, Vec<u8>),
    VerbatimDisk(u8),
    DeviceNS(Vec<u8>),
    UNC(Vec<u8>, Vec<u8>),
    Disk(u8),
}

/// What a [`PathPrefix`] holds.
#[verifier::ext_equal]
pub enum PrefixModel {
    Verbatim(Seq<u8>),
    VerbatimUNC(Seq<u8>, Seq<u8>),
    VerbatimDisk(u8),
    DeviceNS(Seq<u8>),
    UNC(Seq<u8>, Seq<u8>),
    Disk(u8),
}

impl DeepView for PathPrefix {
    type V = PrefixModel;

    open spec fn deep_view(&self) -> PrefixModel {
        match self {
            PathPrefix::Verbatim(name) => PrefixModel::Verbatim(name@),
            PathPrefix::VerbatimUNC(server, share) => PrefixModel::VerbatimUNC(server@, share@),
            PathPrefix::VerbatimDisk(letter) => PrefixModel::VerbatimDisk(*letter),
            PathPrefix::DeviceNS(name) => PrefixModel::DeviceNS(name@),
            PathPrefix::UNC(server, share) => PrefixModel::UNC(server@, share@),
            PathPrefix::Disk(letter) => PrefixModel::Disk(*letter),
        }
    }
}

/// One component of a path.
#[derive(Debug, PartialEq, Eq)]
pub enum PathPart {
    /// What a path on Windows can begin with.
    Prefix(PathPrefix),
    RootDir,
    CurDir,
    ParentDir,
    /// A name, as the bytes that the platform encodes it in.
    Normal(Vec<u8>),
}

/// What a [`PathPart`] holds.
#[verifier::ext_equal]
pub enum PartModel {
    Prefix(PrefixModel),
    RootDir,
    CurDir,
    ParentDir,
    Normal(Seq<u8>),
}

impl DeepView for PathPart {
    type V = PartModel;

    open spec fn deep_view(&self) -> PartModel {
        match self {
            PathPart::Prefix(prefix) => PartModel::Prefix(prefix.deep_view()),
            PathPart::RootDir => PartModel::RootDir,
            PathPart::CurDir => PartModel::CurDir,
            PathPart::ParentDir => PartModel::ParentDir,
            PathPart::Normal(name) => PartModel::Normal(name@),
        }
    }
}

/// A path that something happened to.
#[derive(Debug, PartialEq, Eq)]
pub struct WatchedPath {
    pub parts: Vec<PathPart>,
    /// The path as shown to the user.
    pub text: String,
}

/// What a [`WatchedPath`] holds.
#[verifier::ext_equal]
pub struct PathModel {
    pub parts: Seq<PartModel>,
    pub text: Seq<char>,
}

impl DeepView for WatchedPath {
    type V = PathModel;

    open spec fn deep_view(&self) -> PathModel {
        PathModel { parts: self.parts.deep_view(), text: self.text@ }
    }
}

#[verifier::external_type_specification]
#[verifier::external_body]
pub struct ExPath(std::path::PathBuf);

#[verifier::external_type_specification]
#[verifier::external_body]
pub struct ExComponents<'a>(std::path::Components<'a>);

#[verifier::external_type_specification]
#[verifier::external_body]
pub struct ExPrefixComponent<'a>(std::path::PrefixComponent<'a>);

/// The components of a path, in order.
pub uninterp spec fn path_parts(path: &std::path::PathBuf) -> Seq<PartModel>;

/// The text of a path, with a replacement character for what is not Unicode.
pub uninterp spec fn path_text(path: &std::path::PathBuf) -> Seq<char>;

/// What a prefix is, taken apart.
pub uninterp spec fn prefix_kind(prefix: std::path::PrefixComponent<'_>) -> PrefixModel;

/// The components that are still to come.
pub uninterp spec fn parts_left(components: std::path::Components<'_>) -> Seq<PartModel>;

/// `Path::components`: yields the components of the path.
#[verifier::external_body]
fn components(path: &std::path::PathBuf) -> (components: std::path::Components<'_>)
    ensures
        parts_left(components) == path_parts(path),
{
    path.components()
}

/// A component as it is handed out, a prefix not yet taken apart.
enum RawPart<'a> {
    Prefix(std::path::PrefixComponent<'a>),
    RootDir,
    CurDir,
    ParentDir,
    Normal(Vec<u8>),
}

/// The component that `part` is.
spec fn taken_apart(part: RawPart<'_>) -> PartModel {
    match part {
        RawPart::Prefix(prefix) => PartModel::Prefix(prefix_kind(prefix)),
        RawPart::RootDir => PartModel::RootDir,
        RawPart::CurDir => PartModel::CurDir,
        RawPart::ParentDir => PartModel::ParentDir,
        RawPart::Normal(name) => PartModel::Normal(name@),
    }
}

/// `Components::next`: the first component that is still to come, which then no
/// longer is; nothing once there is none.
#[verifier::external_body]
fn next_part<'a>(components: &mut std::path::Components<'a>) -> (part: Option<RawPart<'a>>)
    ensures
        part is None <==> parts_left(*old(components)).len() == 0,
        part matches Some(part) ==> {
            &&& taken_apart(part) == parts_left(*old(components))[0]
            &&& parts_left(*final(components)) == parts_left(*old(components)).skip(1)
        },
{
    Some(match components.next()? {
        std::path::Component::Prefix(prefix) => RawPart::Prefix(prefix),
        std::path::Component::RootDir => RawPart::RootDir,
        std::path::Component::CurDir => RawPart::CurDir,
        std::path::Component::ParentDir => RawPart::ParentDir,
        std::path::Component::Normal(name) => RawPart::Normal(name.as_encoded_bytes().to_vec()),
    })
}

/// `PrefixComponent::kind`: what the prefix is, as std reads it.
#[verifier::external_body]
fn take_prefix_apart(prefix: std::path::PrefixComponent<'_>) -> (kind: PathPrefix)
    ensures
        kind.deep_view() == prefix_kind(prefix),
{
    match prefix.kind() {
        Prefix::Verbatim(s) => PathPrefix::Verbatim(s.as_encoded_bytes().to_vec()),
        Prefix::VerbatimUNC(s, t) => PathPrefix::VerbatimUNC(
            s.as_encoded_bytes().to_vec(),
            t.as_encoded_bytes().to_vec(),
        ),
        Prefix::VerbatimDisk(letter) => PathPrefix::VerbatimDisk(letter),
        Prefix::DeviceNS(s) => PathPrefix::DeviceNS(s.as_encoded_bytes().to_vec()),
        Prefix::UNC(s, t) => PathPrefix::UNC(
            s.as_encoded_bytes().to_vec(),
            t.as_encoded_bytes().to_vec(),
        ),
        Prefix::Disk(letter) => PathPrefix::Disk(letter),
    }
}

/// `Path::to_string_lossy`: the text of the path.
#[verifier::external_body]
fn lossy_text(path: &std::path::PathBuf) -> (text: String)
    ensures
        text@ == path_text(path),
{
    path.to_string_lossy().into_owned()
}

// ---------------------------------------------------------------------------
// The filter
// ---------------------------------------------------------------------------

/// Whether `part` is the name `name`.
pub open spec fn named(part: PartModel, name: Seq<char>) -> bool {
    part == PartModel::Normal(encode_utf8(name))
}

/// Whether `part` names a directory of build products or dependencies.
pub open spec fn noise(part: PartModel) -> bool {
    ||| named(part, "target"@)
    ||| named(part, "node_modules"@)
    ||| named(part, "dist"@)
    ||| named(part, "build"@)
    ||| named(part, ".next"@)
    ||| named(part, ".venv"@)
    ||| named(part, "__pycache__"@)
}

/// The index of the first `.git` among `parts`.
pub open spec fn git_position(parts: Seq<PartModel>) -> Option<int>
    decreases parts.len(),
{
    if parts.len() == 0 {
        None
    } else if named(parts[0], ".git"@) {
        Some(0)
    } else {
        match git_position(parts.skip(1)) {
            Some(i) => Some(i + 1),
            None => None,
        }
    }
}

/// Whether `rest`, a path below a `.git` directory, tells of a change that the
/// user made: the checked-out commit, the index, or a branch.
pub open spec fn git_state(rest: Seq<PartModel>) -> bool {
    ||| rest.len() == 1 && (named(rest[0], "HEAD"@) || named(rest[0], "index"@))
    ||| rest.len() >= 3 && named(rest[0], "refs"@) && named(rest[1], "heads"@)
}

/// Whether a change of the path with these components matters.
pub open spec fn relevant(parts: Seq<PartModel>) -> bool {
    &&& forall|i: int| 0 <= i < parts.len() ==> !noise(#[trigger] parts[i])
    &&& git_position(parts) matches Some(i) ==> git_state(parts.skip(i + 1))
}

/// Nothing below a directory of build products or dependencies matters.
pub proof fn lemma_noise_hides_what_is_below(
    above: Seq<PartModel>,
    part: PartModel,
    below: Seq<PartModel>,
)
    requires
        noise(part),
    ensures
        !relevant(above.push(part) + below),
{
    assert((above.push(part) + below)[above.len() as int] == part);
}

/// Outside `.git` everything matters that is not noise.
pub proof fn lemma_plain_paths_matter(parts: Seq<PartModel>)
    requires
        forall|i: int|
            0 <= i < parts.len() ==> !noise(#[trigger] parts[i]) && !named(parts[i], ".git"@),
    ensures
        relevant(parts),
{
    lemma_git_position(parts);
}

/// The position is that of a `.git`, and the first such one; it is missing
/// exactly where no component is called so.
pub proof fn lemma_git_position(parts: Seq<PartModel>)
    ensures
        match git_position(parts) {
            Some(i) => {
                &&& 0 <= i < parts.len()
                &&& named(parts[i], ".git"@)
                &&& forall|j: int| 0 <= j < i ==> !named(#[trigger] parts[j], ".git"@)
            },
            None => forall|j: int| 0 <= j < parts.len() ==> !named(#[trigger] parts[j], ".git"@),
        },
    decreases parts.len(),
{
    if parts.len() > 0 && !named(parts[0], ".git"@) {
        let rest = parts.skip(1);
        lemma_git_position(rest);
        assert forall|j: int|
            0 <= j < parts.len() && (git_position(rest) matches Some(i) ==> j <= i) implies !named(
            #[trigger] parts[j],
            ".git"@,
        ) by {
            if j > 0 {
                assert(parts[j] == rest[j - 1]);
            }
        }
    }
}

/// Below a `.git` directory only its state matters, wherever the directory is.
pub proof fn lemma_git_directory(
    above: Seq<PartModel>,
    git: PartModel,
    below: Seq<PartModel>,
)
    requires
        named(git, ".git"@),
        forall|i: int| 0 <= i < above.len() ==> !named(#[trigger] above[i], ".git"@),
    ensures
        relevant(above.push(git) + below) <==> git_state(below) && forall|i: int|
            0 <= i < (above.push(git) + below).len() ==> !noise(
                #[trigger] (above.push(git) + below)[i],
            ),
{
    let parts = above.push(git) + below;
    lemma_git_position(parts);
    assert(parts[above.len() as int] == git);
    assert forall|i: int| 0 <= i < above.len() implies !named(#[trigger] parts[i], ".git"@) by {
        assert(parts[i] == above[i]);
    }
    assert(parts.skip(above.len() as int + 1) =~= below);
}

/// The component with the name `name`.
pub open spec fn name(name: Seq<char>) -> PartModel {
    PartModel::Normal(encode_utf8(name))
}

/// Whether `part` has one of the seven names of directories that are not watched.
pub open spec fn unwatched(part: PartModel) -> bool {
    ||| part == name("target"@)
    ||| part == name("node_modules"@)
    ||| part == name("dist"@)
    ||| part == name("build"@)
    ||| part == name(".next"@)
    ||| part == name(".venv"@)
    ||| part == name("__pycache__"@)
}

proof fn lemma_git_is_watched()
    ensures
        !unwatched(name(".git"@)),
{
    broadcast use vstd::utf8::encode_utf8_decode_utf8;

    reveal_strlit(".git");
    reveal_strlit("target");
    reveal_strlit("node_modules");
    reveal_strlit("dist");
    reveal_strlit("build");
    reveal_strlit(".next");
    reveal_strlit(".venv");
    reveal_strlit("__pycache__");
    assert("dist"@[0] != ".git"@[0]);
    assert(vstd::utf8::decode_utf8(encode_utf8(".git"@)) == ".git"@);
    assert(vstd::utf8::decode_utf8(encode_utf8("target"@)) == "target"@);
    assert(vstd::utf8::decode_utf8(encode_utf8("node_modules"@)) == "node_modules"@);
    assert(vstd::utf8::decode_utf8(encode_utf8("dist"@)) == "dist"@);
    assert(vstd::utf8::decode_utf8(encode_utf8("build"@)) == "build"@);
    assert(vstd::utf8::decode_utf8(encode_utf8(".next"@)) == ".next"@);
    assert(vstd::utf8::decode_utf8(encode_utf8(".venv"@)) == ".venv"@);
    assert(vstd::utf8::decode_utf8(encode_utf8("__pycache__"@)) == "__pycache__"@);
}

/// Which paths matter outside `.git`: all but those with a component that has one of
/// the seven names, wherever it stands.
pub proof fn lemma_relevant_outside_git(parts: Seq<PartModel>)
    requires
        forall|i: int| 0 <= i < parts.len() ==> #[trigger] parts[i] != name(".git"@),
    ensures
        relevant(parts) <==> forall|i: int|
            0 <= i < parts.len() ==> !unwatched(#[trigger] parts[i]),
{
    lemma_git_position(parts);
    assert forall|i: int| 0 <= i < parts.len() implies !named(#[trigger] parts[i], ".git"@) by {}
}

/// Which paths matter below the outermost `.git`: exactly `HEAD`, `index` and what is
/// below `refs/heads`, if no component of the path has one of the seven names.
pub proof fn lemma_relevant_in_git(above: Seq<PartModel>, below: Seq<PartModel>)
    requires
        forall|i: int| 0 <= i < above.len() ==> #[trigger] above[i] != name(".git"@),
    ensures
        relevant(above.push(name(".git"@)) + below) <==> {
            &&& forall|i: int| 0 <= i < above.len() ==> !unwatched(#[trigger] above[i])
            &&& forall|i: int| 0 <= i < below.len() ==> !unwatched(#[trigger] below[i])
            &&& {
                ||| below == seq![name("HEAD"@)]
                ||| below == seq![name("index"@)]
                ||| below.len() >= 3 && below[0] == name("refs"@) && below[1] == name("heads"@)
            }
        },
{
    let git = name(".git"@);
    let parts = above.push(git) + below;
    assert forall|i: int| 0 <= i < above.len() implies !named(#[trigger] above[i], ".git"@) by {}
    lemma_git_directory(above, git, below);
    lemma_git_is_watched();
    if below.len() == 1 {
        assert(below =~= seq![below[0]]);
    }
    if forall|i: int| 0 <= i < parts.len() ==> !noise(#[trigger] parts[i]) {
        assert forall|i: int| 0 <= i < above.len() implies !unwatched(#[trigger] above[i]) by {
            assert(parts[i] == above[i]);
        }
        assert forall|i: int| 0 <= i < below.len() implies !unwatched(#[trigger] below[i]) by {
            assert(parts[above.len() + 1 + i] == below[i]);
        }
    }
    if (forall|i: int| 0 <= i < above.len() ==> !unwatched(#[trigger] above[i])) && (forall|i: int|
        0 <= i < below.len() ==> !unwatched(#[trigger] below[i])) {
        assert forall|i: int| 0 <= i < parts.len() implies !noise(#[trigger] parts[i]) by {
            if i < above.len() {
                assert(parts[i] == above[i]);
                assert(!unwatched(above[i]));
            } else if i > above.len() {
                assert(parts[i] == below[i - above.len() - 1]);
                assert(!unwatched(below[i - above.len() - 1]));
            } else {
                assert(parts[i] == git);
            }
        }
    }
}

fn is_named(part: &PathPart, name: &str) -> (yes: bool)
    ensures
        yes == named(part.deep_view(), name@),
{
    match part {
        PathPart::Normal(bytes) => same_bytes(bytes.as_slice(), name.as_bytes()),
        _ => false,
    }
}

fn same_bytes(a: &[u8], b: &[u8]) -> (yes: bool)
    ensures
        yes == (a@ == b@),
{
    if a.len() != b.len() {
        return false;
    }
    for i in 0..a.len()
        invariant
            a@.len() == b@.len(),
            forall|k: int| 0 <= k < i ==> a@[k] == b@[k],
    {
        if a[i] != b[i] {
            return false;
        }
    }
    assert(a@ =~= b@);
    true
}

fn is_noise(part: &PathPart) -> (yes: bool)
    ensures
        yes == noise(part.deep_view()),
{
    is_named(part, "target") || is_named(part, "node_modules") || is_named(part, "dist")
        || is_named(part, "build") || is_named(part, ".next") || is_named(part, ".venv")
        || is_named(part, "__pycache__")
}

fn same_prefix(a: &PathPrefix, b: &PathPrefix) -> (yes: bool)
    ensures
        yes == (a.deep_view() == b.deep_view()),
{
    match (a, b) {
        (PathPrefix::Verbatim(x), PathPrefix::Verbatim(y)) => same_bytes(
            x.as_slice(),
            y.as_slice(),
        ),
        (PathPrefix::VerbatimUNC(x, s), PathPrefix::VerbatimUNC(y, t)) => same_bytes(
            x.as_slice(),
            y.as_slice(),
        ) && same_bytes(s.as_slice(), t.as_slice()),
        (PathPrefix::VerbatimDisk(x), PathPrefix::VerbatimDisk(y)) => *x == *y,
        (PathPrefix::DeviceNS(x), PathPrefix::DeviceNS(y)) => same_bytes(
            x.as_slice(),
            y.as_slice(),
        ),
        (PathPrefix::UNC(x, s), PathPrefix::UNC(y, t)) => same_bytes(x.as_slice(), y.as_slice())
            && same_bytes(s.as_slice(), t.as_slice()),
        (PathPrefix::Disk(x), PathPrefix::Disk(y)) => *x == *y,
        _ => false,
    }
}

fn same_part(a: &PathPart, b: &PathPart) -> (yes: bool)
    ensures
        yes == (a.deep_view() == b.deep_view()),
{
    match (a, b) {
        (PathPart::Prefix(x), PathPart::Prefix(y)) => same_prefix(x, y),
        (PathPart::RootDir, PathPart::RootDir) => true,
        (PathPart::CurDir, PathPart::CurDir) => true,
        (PathPart::ParentDir, PathPart::ParentDir) => true,
        (PathPart::Normal(x), PathPart::Normal(y)) => same_bytes(x.as_slice(), y.as_slice()),
        _ => false,
    }
}

fn parts_of(path: &std::path::PathBuf) -> (parts: Vec<PathPart>)
    ensures
        parts.deep_view() == path_parts(path),
{
    let mut rest = components(path);
    let mut parts: Vec<PathPart> = Vec::new();
    let ghost all = path_parts(path);
    assert(parts.deep_view() + parts_left(rest) =~= all);
    loop
        invariant_except_break
            parts.deep_view() + parts_left(rest) == all,
        ensures
            parts.deep_view() == all,
        decreases parts_left(rest).len(),
    {
        let ghost before = parts.deep_view();
        let ghost left = parts_left(rest);
        match next_part(&mut rest) {
            Some(raw) => {
                let part = match raw {
                    RawPart::Prefix(prefix) => PathPart::Prefix(take_prefix_apart(prefix)),
                    RawPart::RootDir => PathPart::RootDir,
                    RawPart::CurDir => PathPart::CurDir,
                    RawPart::ParentDir => PathPart::ParentDir,
                    RawPart::Normal(name) => PathPart::Normal(name),
                };
                parts.push(part);
                assert(parts.deep_view() =~= before.push(left[0]));
                assert(parts.deep_view() + parts_left(rest) =~= before + left);
            },
            None => {
                assert(before + left =~= before);
                break;
            },
        }
    }
    parts
}

impl WatchedPath {
    /// What the watcher needs to know of `path`.
    pub fn of(path: &std::path::PathBuf) -> (watched: Self)
        ensures
            watched.deep_view() == (PathModel { parts: path_parts(path), text: path_text(path) }),
    {
        WatchedPath { parts: parts_of(path), text: lossy_text(path) }
    }

    /// Whether both are the same path: the same components, whatever their
    /// spelling.
    pub fn same_path(&self, other: &WatchedPath) -> (yes: bool)
        ensures
            yes == (self.deep_view().parts == other.deep_view().parts),
    {
        let ghost a = self.parts.deep_view();
        let ghost b = other.parts.deep_view();
        if self.parts.len() != other.parts.len() {
            assert(a.len() != b.len());
            return false;
        }
        for i in 0..self.parts.len()
            invariant
                a == self.parts.deep_view(),
                b == other.parts.deep_view(),
                a == self.deep_view().parts,
                b == other.deep_view().parts,
                a.len() == b.len(),
                forall|k: int| 0 <= k < i ==> a[k] == b[k],
        {
            if !same_part(&self.parts[i], &other.parts[i]) {
                assert(a[i as int] != b[i as int]);
                return false;
            }
        }
        assert(a =~= b);
        true
    }

    /// Whether a change of this path matters.
    pub fn is_relevant(&self) -> (yes: bool)
        ensures
            yes == relevant(self.deep_view().parts),
    {
        let ghost parts = self.parts.deep_view();
        for i in 0..self.parts.len()
            invariant
                parts == self.parts.deep_view(),
                parts == self.deep_view().parts,
                forall|k: int| 0 <= k < i ==> !noise(#[trigger] parts[k]),
        {
            if is_noise(&self.parts[i]) {
                assert(noise(parts[i as int]));
                return false;
            }
        }
        assert(parts.skip(0) =~= parts);
        for i in 0..self.parts.len()
            invariant
                parts == self.parts.deep_view(),
                parts == self.deep_view().parts,
                forall|k: int| 0 <= k < parts.len() ==> !noise(#[trigger] parts[k]),
                git_position(parts) == (match git_position(parts.skip(i as int)) {
                    Some(at) => Some(at + i),
                    None => None,
                }),
        {
            assert(parts.skip(i as int)[0] == parts[i as int]);
            assert(parts.skip(i as int).skip(1) =~= parts.skip(i + 1));
            if is_named(&self.parts[i], ".git") {
                assert(git_position(parts) == Some(i as int));
                return self.is_git_state(i + 1);
            }
        }
        assert(git_position(parts) is None);
        true
    }

    /// Whether the components from index `from` on are those of git's state.
    fn is_git_state(&self, from: usize) -> (yes: bool)
        requires
            from <= self.parts@.len(),
        ensures
            yes == git_state(self.deep_view().parts.skip(from as int)),
    {
        let ghost rest = self.deep_view().parts.skip(from as int);
        let n: usize = self.parts.len() - from;
        if n == 1 {
            assert(rest[0] == self.parts@[from as int].deep_view());
            is_named(&self.parts[from], "HEAD") || is_named(&self.parts[from], "index")
        } else if n >= 3 {
            assert(rest[0] == self.parts@[from as int].deep_view());
            assert(rest[1] == self.parts@[from + 1].deep_view());
            is_named(&self.parts[from], "refs") && is_named(&self.parts[from + 1], "heads")
        } else {
            false
        }
    }
}

/// Whether a change of `path` matters.
pub fn noise_filter(path: &std::path::PathBuf) -> (keep: bool)
    ensures
        keep == relevant(path_parts(path)),
{
    WatchedPath::of(path).is_relevant()
}

} // verus!
