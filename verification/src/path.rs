//! Paths as sequences of components.

use vstd::prelude::*;
use vstd::string::StringSliceAdditionalSpecFns;
use crate::order::{
    lex_lt, strict_total, lemma_lex_connected, lemma_lex_irreflexive, lemma_lex_strict_total,
    lemma_lex_transitive,
};

verus! {

/// What a path is to the contracts: its components in order, each a string of
/// bytes. A root is the component `/` at the front.
pub type PathModel = Seq<Seq<u8>>;

/// The byte that separates components in a written path.
pub const SEPARATOR: u8 = 0x2f;

/// The byte of which the components `.` and `..` are made.
pub const DOT: u8 = 0x2e;

pub open spec fn root_part() -> Seq<u8> {
    seq![SEPARATOR]
}

pub open spec fn cur_part() -> Seq<u8> {
    seq![DOT]
}

pub open spec fn parent_part() -> Seq<u8> {
    seq![DOT, DOT]
}

/// Where the first separator stands in `s`; `s.len()` when it holds none.
pub open spec fn first_separator(s: Seq<u8>) -> int
    decreases s.len(),
{
    if s.len() == 0 || s[0] == SEPARATOR {
        0
    } else {
        1 + first_separator(s.skip(1))
    }
}

/// The components written in `s`, which follows any root. Empty stretches
/// between separators name nothing, and `.` names something only where it
/// leads the whole path.
pub open spec fn parse_parts(s: Seq<u8>, leading: bool) -> PathModel
    decreases s.len(),
{
    let k = first_separator(s);
    let part = s.take(k);
    let here = if part.len() == 0 || (part == cur_part() && !leading) {
        Seq::<Seq<u8>>::empty()
    } else {
        seq![part]
    };
    if 0 <= k < s.len() {
        here + parse_parts(s.skip(k + 1), false)
    } else {
        here
    }
}

/// The path that the bytes `s` spell.
pub open spec fn parse_path(s: Seq<u8>) -> PathModel {
    if s.len() > 0 && s[0] == SEPARATOR {
        seq![root_part()] + parse_parts(s.skip(1), false)
    } else {
        parse_parts(s, true)
    }
}

/// A component is not empty, holds a separator only where it is the root, and
/// is the root or `.` only at the front of its path.
pub open spec fn part_wf(part: Seq<u8>, front: bool) -> bool {
    &&& part.len() > 0
    &&& part != root_part() ==> !part.contains(SEPARATOR)
    &&& (part == root_part() || part == cur_part()) ==> front
}

/// A sequence of components that some written path spells.
pub open spec fn path_wf(m: PathModel) -> bool {
    forall|i: int| 0 <= i < m.len() ==> part_wf(#[trigger] m[i], i == 0)
}

pub open spec fn parts_model(parts: Seq<Vec<u8>>) -> PathModel {
    Seq::new(parts.len(), |i: int| parts[i]@)
}

/// Whether the path starts at the root.
pub open spec fn is_rooted(m: PathModel) -> bool {
    m.len() > 0 && m[0] == root_part()
}

/// `b` read from `a`: `b` itself where it is rooted or `a` is empty, else the
/// components of `a` followed by those of `b`, without a `.` that leads `b`.
pub open spec fn path_join(a: PathModel, b: PathModel) -> PathModel {
    if is_rooted(b) || a.len() == 0 {
        b
    } else if b.len() > 0 && b[0] == cur_part() {
        a + b.skip(1)
    } else {
        a + b
    }
}

/// The path without its last component. The empty path and the root have none.
pub open spec fn path_parent(m: PathModel) -> Option<PathModel> {
    if m.len() == 0 || m.last() == root_part() {
        None
    } else {
        Some(m.drop_last())
    }
}

/// Whether the component names an entry, that is, is none of `/`, `.`, `..`.
pub open spec fn is_name(part: Seq<u8>) -> bool {
    part != root_part() && part != cur_part() && part != parent_part()
}

/// The last component, where it names an entry.
pub open spec fn path_file_name(m: PathModel) -> Option<Seq<u8>> {
    if m.len() > 0 && is_name(m.last()) {
        Some(m.last())
    } else {
        None
    }
}

/// Where the last dot stands in `name`; `-1` when it holds none.
pub open spec fn last_dot(name: Seq<u8>) -> int
    decreases name.len(),
{
    if name.len() == 0 {
        -1
    } else if name.last() == DOT {
        name.len() - 1
    } else {
        last_dot(name.drop_last())
    }
}

/// What follows the last dot of `name`, unless that dot leads the name.
pub open spec fn name_extension(name: Seq<u8>) -> Option<Seq<u8>> {
    let k = last_dot(name);
    if k <= 0 {
        None
    } else {
        Some(name.skip(k + 1))
    }
}

/// The extension of the path's file name.
pub open spec fn path_extension(m: PathModel) -> Option<Seq<u8>> {
    match path_file_name(m) {
        Some(name) => name_extension(name),
        None => None,
    }
}

/// What is left of `m` below `base`, where `m` lies at or below it.
pub open spec fn path_strip_prefix(m: PathModel, base: PathModel) -> Option<PathModel> {
    if base.is_prefix_of(m) {
        Some(m.skip(base.len() as int))
    } else {
        None
    }
}

/// What stands in `m` before `suffix`, where `m` ends in `suffix` and is
/// longer than it.
pub open spec fn remove_common_suffix(m: PathModel, suffix: PathModel) -> Option<PathModel> {
    if suffix.is_suffix_of(m) && suffix.len() < m.len() {
        Some(m.take(m.len() - suffix.len()))
    } else {
        None
    }
}

/// How many components `a` and `b` share, counted from the back.
pub open spec fn common_suffix_len(a: PathModel, b: PathModel) -> nat
    decreases a.len(),
{
    if a.len() > 0 && b.len() > 0 && a.last() == b.last() {
        1 + common_suffix_len(a.drop_last(), b.drop_last())
    } else {
        0
    }
}

/// How many components `a` and `b` share, counted from the front.
pub open spec fn common_prefix_len(a: PathModel, b: PathModel) -> nat
    decreases a.len(),
{
    if a.len() > 0 && b.len() > 0 && a[0] == b[0] {
        1 + common_prefix_len(a.skip(1), b.skip(1))
    } else {
        0
    }
}

pub open spec fn byte_order() -> spec_fn(u8, u8) -> bool {
    |x: u8, y: u8| x < y
}

/// The root sorts first, then `.`, then `..`, then the names.
pub open spec fn part_rank(part: Seq<u8>) -> int {
    if part == root_part() {
        0
    } else if part == cur_part() {
        1
    } else if part == parent_part() {
        2
    } else {
        3
    }
}

pub open spec fn part_lt(a: Seq<u8>, b: Seq<u8>) -> bool {
    part_rank(a) < part_rank(b) || (part_rank(a) == part_rank(b) && lex_lt(a, b, byte_order()))
}

pub open spec fn part_order() -> spec_fn(Seq<u8>, Seq<u8>) -> bool {
    |a: Seq<u8>, b: Seq<u8>| part_lt(a, b)
}

/// The order of paths: component by component, a shorter path before its
/// extensions.
pub open spec fn path_lt(a: PathModel, b: PathModel) -> bool {
    lex_lt(a, b, part_order())
}

pub open spec fn path_order() -> spec_fn(PathModel, PathModel) -> bool {
    |a: PathModel, b: PathModel| path_lt(a, b)
}

pub proof fn lemma_part_order_strict_total()
    ensures
        strict_total(part_order()),
{
    let lt = part_order();
    assert(strict_total(byte_order()));
    assert forall|a: Seq<u8>| !#[trigger] lt(a, a) by {
        lemma_lex_irreflexive(a, byte_order());
    }
    assert forall|a: Seq<u8>, b: Seq<u8>| a != b implies #[trigger] lt(a, b) || lt(b, a) by {
        lemma_lex_connected(a, b, byte_order());
    }
    assert forall|a: Seq<u8>, b: Seq<u8>, c: Seq<u8>| #[trigger] lt(a, b) && #[trigger] lt(
        b,
        c,
    ) implies lt(a, c) by {
        if part_rank(a) == part_rank(b) && part_rank(b) == part_rank(c) {
            lemma_lex_transitive(a, b, c, byte_order());
        }
    }
}

/// Paths are strictly and totally ordered.
pub proof fn lemma_path_order_strict_total()
    ensures
        strict_total(path_order()),
{
    lemma_part_order_strict_total();
    lemma_lex_strict_total(part_order());
    let f = path_order();
    let g = |a: PathModel, b: PathModel| lex_lt(a, b, part_order());
    assert(strict_total(g));
    assert forall|a: PathModel| !#[trigger] f(a, a) by {
        assert(!g(a, a));
    }
    assert forall|a: PathModel, b: PathModel| a != b implies #[trigger] f(a, b) || f(b, a) by {
        assert(g(a, b) || g(b, a));
    }
    assert forall|a: PathModel, b: PathModel, c: PathModel| #[trigger] f(a, b) && #[trigger] f(
        b,
        c,
    ) implies f(a, c) by {
        assert(g(a, b) && g(b, c));
    }
}

/// A file-system path, held as its components.
#[derive(Debug, PartialEq, Eq, Hash)]
pub struct Path {
    parts: Vec<Vec<u8>>,
}

/// The view of a path that may be missing.
pub open spec fn option_model(path: Option<Path>) -> Option<PathModel> {
    match path {
        Some(p) => Some(p@),
        None => None,
    }
}

impl View for Path {
    type V = PathModel;

    closed spec fn view(&self) -> PathModel {
        parts_model(self.parts@)
    }
}

pub proof fn lemma_first_separator(s: Seq<u8>, k: int)
    requires
        0 <= k <= s.len(),
        forall|j: int| 0 <= j < k ==> s[j] != SEPARATOR,
        k == s.len() || s[k] == SEPARATOR,
    ensures
        first_separator(s) == k,
    decreases k,
{
    if k > 0 {
        lemma_first_separator(s.skip(1), k - 1);
    }
}

/// Whether two byte strings are the same.
pub fn bytes_eq(a: &[u8], b: &[u8]) -> (r: bool)
    ensures
        r == (a@ == b@),
{
    if a.len() != b.len() {
        return false;
    }
    let mut i: usize = 0;
    while i < a.len()
        invariant
            a@.len() == b@.len(),
            i <= a@.len(),
            forall|j: int| 0 <= j < i ==> a@[j] == b@[j],
        decreases a@.len() - i,
    {
        if a[i] != b[i] {
            return false;
        }
        i += 1;
    }
    assert(a@ =~= b@);
    true
}

impl Path {
    #[verifier::type_invariant]
    spec fn inv(self) -> bool {
        path_wf(parts_model(self.parts@))
    }

    /// Every path is a sequence of well-formed components. Calling this brings
    /// that fact into a proof; it does nothing when run.
    pub fn well_formed(&self)
        ensures
            path_wf(self@),
    {
        proof {
            use_type_invariant(self);
        }
    }

    /// The path with no component.
    pub fn empty() -> (r: Path)
        ensures
            r@ == PathModel::empty(),
    {
        let parts: Vec<Vec<u8>> = Vec::new();
        assert(parts_model(parts@) =~= PathModel::empty());
        Path { parts }
    }

    /// Reads a path from its written form.
    pub fn from_bytes(bytes: &[u8]) -> (r: Path)
        ensures
            r@ == parse_path(bytes@),
    {
        let n = bytes.len();
        let mut parts: Vec<Vec<u8>> = Vec::new();
        let mut start: usize = 0;
        let mut leading = true;
        if n > 0 && bytes[0] == SEPARATOR {
            let mut root: Vec<u8> = Vec::new();
            root.push(SEPARATOR);
            assert(root@ =~= root_part());
            parts.push(root);
            start = 1;
            leading = false;
            assert(parts_model(parts@) =~= seq![root_part()]);
            assert(bytes@.skip(1) =~= bytes@.skip(start as int));
        } else {
            assert(parts_model(parts@) =~= PathModel::empty());
            assert(bytes@.skip(0) =~= bytes@);
        }
        let mut i: usize = start;
        while i < n
            invariant
                n == bytes@.len(),
                start <= i <= n,
                forall|j: int| start <= j < i ==> bytes@[j] != SEPARATOR,
                parse_path(bytes@) == parts_model(parts@) + parse_parts(
                    bytes@.skip(start as int),
                    leading,
                ),
                path_wf(parts_model(parts@)),
                leading ==> parts@.len() == 0,
            decreases n - i,
        {
            if bytes[i] == SEPARATOR {
                let ghost rest = bytes@.skip(start as int);
                let ghost before = parts_model(parts@);
                proof {
                    lemma_first_separator(rest, i - start);
                    assert(rest.skip(i - start + 1) =~= bytes@.skip(i + 1));
                }
                let part = vstd::slice::slice_subrange(bytes, start, i);
                assert(part@ =~= rest.take(i - start));
                if part.len() > 0 && !(part.len() == 1 && part[0] == DOT && !leading) {
                    let owned = vstd::slice::slice_to_vec(part);
                    assert(part@ == cur_part() ==> leading) by {
                        if part@ == cur_part() {
                            assert(part@.len() == 1 && part@[0] == DOT);
                        }
                    }
                    assert(!part@.contains(SEPARATOR));
                    assert(part@ != root_part()) by {
                        if part@ == root_part() {
                            assert(part@[0] == SEPARATOR);
                        }
                    }
                    parts.push(owned);
                    assert(parts_model(parts@) =~= before + seq![part@]);
                } else {
                    assert(part@.len() == 0 || (part@ == cur_part() && !leading)) by {
                        if part@.len() != 0 {
                            assert(part@ =~= cur_part());
                        }
                    }
                }
                start = i + 1;
                leading = false;
            }
            i += 1;
        }
        let ghost rest = bytes@.skip(start as int);
        let ghost before = parts_model(parts@);
        proof {
            lemma_first_separator(rest, n - start);
        }
        let part = vstd::slice::slice_subrange(bytes, start, n);
        assert(part@ =~= rest.take(n - start));
        if part.len() > 0 && !(part.len() == 1 && part[0] == DOT && !leading) {
            let owned = vstd::slice::slice_to_vec(part);
            assert(part@ == cur_part() ==> leading) by {
                if part@ == cur_part() {
                    assert(part@.len() == 1 && part@[0] == DOT);
                }
            }
            assert(!part@.contains(SEPARATOR));
            assert(part@ != root_part()) by {
                if part@ == root_part() {
                    assert(part@[0] == SEPARATOR);
                }
            }
            parts.push(owned);
            assert(parts_model(parts@) =~= before + seq![part@]);
        } else {
            assert(part@.len() == 0 || (part@ == cur_part() && !leading)) by {
                if part@.len() != 0 {
                    assert(part@ =~= cur_part());
                }
            }
            assert(parts_model(parts@) =~= before + PathModel::empty());
        }
        Path { parts }
    }

    /// Reads a path from its written form.
    pub fn new(text: &str) -> (r: Path)
        ensures
            r@ == parse_path(text.spec_bytes()),
    {
        Path::from_bytes(text.as_bytes())
    }
}

/// Whether `a` sorts before `b`, byte by byte.
pub fn bytes_lt(a: &[u8], b: &[u8]) -> (r: bool)
    ensures
        r == lex_lt(a@, b@, byte_order()),
{
    let mut i: usize = 0;
    proof {
        assert(a@.skip(0) =~= a@);
        assert(b@.skip(0) =~= b@);
    }
    while i < a.len() && i < b.len()
        invariant
            i <= a@.len(),
            i <= b@.len(),
            lex_lt(a@, b@, byte_order()) == lex_lt(a@.skip(i as int), b@.skip(i as int), byte_order()),
        decreases a@.len() - i,
    {
        proof {
            assert(a@.skip(i as int).skip(1) =~= a@.skip(i + 1));
            assert(b@.skip(i as int).skip(1) =~= b@.skip(i + 1));
        }
        if a[i] != b[i] {
            return a[i] < b[i];
        }
        i += 1;
    }
    i < b.len()
}

/// The place of a component among the four sorts of them.
pub fn rank_of(part: &[u8]) -> (r: u8)
    ensures
        r == part_rank(part@),
{
    if part.len() == 1 && part[0] == SEPARATOR {
        assert(part@ =~= root_part());
        0
    } else if part.len() == 1 && part[0] == DOT {
        assert(part@ =~= cur_part());
        assert(part@ != root_part()) by {
            assert(root_part()[0] == SEPARATOR);
        }
        1
    } else if part.len() == 2 && part[0] == DOT && part[1] == DOT {
        assert(part@ =~= parent_part());
        assert(parent_part().len() == 2);
        2
    } else {
        assert(part@ != root_part()) by {
            assert(root_part().len() == 1 && root_part()[0] == SEPARATOR);
        }
        assert(part@ != cur_part()) by {
            assert(cur_part().len() == 1 && cur_part()[0] == DOT);
        }
        assert(part@ != parent_part()) by {
            assert(parent_part().len() == 2 && parent_part()[0] == DOT && parent_part()[1] == DOT);
        }
        3
    }
}

impl Clone for Path {
    fn clone(&self) -> (r: Path)
        ensures
            r@ == self@,
    {
        proof {
            use_type_invariant(self);
        }
        let mut parts: Vec<Vec<u8>> = Vec::new();
        self.copy_parts(0, self.parts.len(), &mut parts);
        assert(parts_model(parts@) =~= parts_model(self.parts@));
        Path { parts }
    }
}

impl Path {
    /// Appends the components `from..to` of this path to `out`.
    fn copy_parts(&self, from: usize, to: usize, out: &mut Vec<Vec<u8>>)
        requires
            from <= to <= self.parts@.len(),
        ensures
            parts_model(final(out)@) == parts_model(old(out)@) + parts_model(self.parts@).subrange(
                from as int,
                to as int,
            ),
    {
        let mut i = from;
        assert(parts_model(out@) =~= parts_model(old(out)@) + parts_model(self.parts@).subrange(
            from as int,
            i as int,
        ));
        while i < to
            invariant
                from <= i <= to <= self.parts@.len(),
                parts_model(out@) == parts_model(old(out)@) + parts_model(self.parts@).subrange(
                    from as int,
                    i as int,
                ),
            decreases to - i,
        {
            let ghost before = parts_model(out@);
            let part = vstd::slice::slice_to_vec(self.parts[i].as_slice());
            out.push(part);
            assert(parts_model(out@) =~= before + seq![self.parts@[i as int]@]);
            i += 1;
            assert(parts_model(out@) =~= parts_model(old(out)@) + parts_model(
                self.parts@,
            ).subrange(from as int, i as int));
        }
    }

    /// The number of components.
    pub fn len(&self) -> (r: usize)
        ensures
            r == self@.len(),
    {
        self.parts.len()
    }

    /// The component at place `i`.
    pub fn part(&self, i: usize) -> (r: &[u8])
        requires
            i < self@.len(),
        ensures
            r@ == self@[i as int],
    {
        self.parts[i].as_slice()
    }

    /// Whether the two paths have the same components.
    pub fn same(&self, other: &Path) -> (r: bool)
        ensures
            r == (self@ == other@),
    {
        if self.parts.len() != other.parts.len() {
            assert(self@.len() != other@.len());
            return false;
        }
        let mut i: usize = 0;
        while i < self.parts.len()
            invariant
                self.parts@.len() == other.parts@.len(),
                self@.len() == self.parts@.len(),
                other@.len() == other.parts@.len(),
                i <= self.parts@.len(),
                forall|j: int| 0 <= j < i ==> self@[j] == other@[j],
            decreases self.parts@.len() - i,
        {
            if !bytes_eq(self.parts[i].as_slice(), other.parts[i].as_slice()) {
                assert(self@[i as int] != other@[i as int]);
                return false;
            }
            i += 1;
        }
        assert(self@ =~= other@);
        true
    }

    /// Whether this path sorts before `other`.
    pub fn sorts_before(&self, other: &Path) -> (r: bool)
        ensures
            r == path_lt(self@, other@),
    {
        let mut i: usize = 0;
        proof {
            assert(self@.skip(0) =~= self@);
            assert(other@.skip(0) =~= other@);
        }
        while i < self.parts.len() && i < other.parts.len()
            invariant
                i <= self@.len(),
                i <= other@.len(),
                self@.len() == self.parts@.len(),
                other@.len() == other.parts@.len(),
                path_lt(self@, other@) == lex_lt(
                    self@.skip(i as int),
                    other@.skip(i as int),
                    part_order(),
                ),
            decreases self@.len() - i,
        {
            proof {
                assert(self@.skip(i as int).skip(1) =~= self@.skip(i + 1));
                assert(other@.skip(i as int).skip(1) =~= other@.skip(i + 1));
            }
            let a = self.parts[i].as_slice();
            let b = other.parts[i].as_slice();
            if !bytes_eq(a, b) {
                let ra = rank_of(a);
                let rb = rank_of(b);
                let r = ra < rb || (ra == rb && bytes_lt(a, b));
                assert(self@[i as int] == a@);
                assert(other@[i as int] == b@);
                assert(r == part_order()(a@, b@));
                return r;
            }
            i += 1;
        }
        i < other.parts.len()
    }

    /// Whether the path starts at the root.
    pub fn is_absolute(&self) -> (r: bool)
        ensures
            r == is_rooted(self@),
    {
        self.parts.len() > 0 && rank_of(self.parts[0].as_slice()) == 0
    }

    /// The first `n` components.
    pub fn first_parts(&self, n: usize) -> (r: Path)
        requires
            n <= self@.len(),
        ensures
            r@ == self@.take(n as int),
    {
        proof {
            use_type_invariant(self);
        }
        let mut parts: Vec<Vec<u8>> = Vec::new();
        self.copy_parts(0, n, &mut parts);
        assert(parts_model(parts@) =~= self@.take(n as int));
        Path { parts }
    }

    /// The components from place `n` on.
    pub fn parts_from(&self, n: usize) -> (r: Path)
        requires
            n <= self@.len(),
        ensures
            r@ == self@.skip(n as int),
    {
        proof {
            use_type_invariant(self);
        }
        let mut parts: Vec<Vec<u8>> = Vec::new();
        self.copy_parts(n, self.parts.len(), &mut parts);
        assert(parts_model(parts@) =~= self@.skip(n as int));
        Path { parts }
    }

    /// `other` read from this path: see [`path_join`].
    pub fn join(&self, other: &Path) -> (r: Path)
        ensures
            r@ == path_join(self@, other@),
    {
        proof {
            use_type_invariant(self);
            use_type_invariant(other);
        }
        if other.is_absolute() || self.parts.len() == 0 {
            return other.clone();
        }
        let skip: usize = if other.parts.len() > 0 && rank_of(other.parts[0].as_slice()) == 1 {
            1
        } else {
            0
        };
        let mut parts: Vec<Vec<u8>> = Vec::new();
        self.copy_parts(0, self.parts.len(), &mut parts);
        other.copy_parts(skip, other.parts.len(), &mut parts);
        assert(parts_model(parts@) =~= self@ + other@.skip(skip as int));
        assert(other@.skip(0) =~= other@);
        assert(path_wf(parts_model(parts@))) by {
            let m = parts_model(parts@);
            assert forall|i: int| 0 <= i < m.len() implies part_wf(#[trigger] m[i], i == 0) by {
                if i < self@.len() {
                    assert(m[i] == self@[i]);
                } else {
                    let j = i - self@.len() + skip;
                    assert(m[i] == other@[j]);
                    assert(part_wf(other@[j], j == 0));
                }
            }
        }
        Path { parts }
    }

    /// This path followed by the path that `name` spells.
    pub fn join_bytes(&self, name: &[u8]) -> (r: Path)
        ensures
            r@ == path_join(self@, parse_path(name@)),
    {
        let tail = Path::from_bytes(name);
        self.join(&tail)
    }

    /// The path without its last component: see [`path_parent`].
    pub fn parent(&self) -> (r: Option<Path>)
        ensures
            option_model(r) == path_parent(self@),
    {
        let n = self.parts.len();
        if n == 0 || rank_of(self.parts[n - 1].as_slice()) == 0 {
            None
        } else {
            let p = self.first_parts(n - 1);
            assert(self@.take(n - 1) =~= self@.drop_last());
            Some(p)
        }
    }

    /// The last component, where it names an entry.
    pub fn file_name(&self) -> (r: Option<&[u8]>)
        ensures
            match r {
                Some(name) => path_file_name(self@) == Some(name@),
                None => path_file_name(self@) is None,
            },
    {
        let n = self.parts.len();
        if n > 0 && rank_of(self.parts[n - 1].as_slice()) == 3 {
            Some(self.parts[n - 1].as_slice())
        } else {
            None
        }
    }

    /// The last component as a path of its own, where it names an entry.
    pub fn file_name_path(&self) -> (r: Option<Path>)
        ensures
            match r {
                Some(name) => path_file_name(self@) == Some(name@[0]) && name@ == seq![name@[0]],
                None => path_file_name(self@) is None,
            },
    {
        let n = self.parts.len();
        if n > 0 && rank_of(self.parts[n - 1].as_slice()) == 3 {
            let name = self.parts_from(n - 1);
            assert(name@ =~= seq![self@[n - 1]]);
            Some(name)
        } else {
            None
        }
    }

    /// The extension of the file name: see [`name_extension`].
    pub fn extension(&self) -> (r: Option<&[u8]>)
        ensures
            match r {
                Some(extension) => path_extension(self@) == Some(extension@),
                None => path_extension(self@) is None,
            },
    {
        let name = match self.file_name() {
            Some(name) => name,
            None => {
                return None;
            },
        };
        let n = name.len();
        let mut k: usize = n;
        assert(name@.take(n as int) =~= name@);
        while k > 0
            invariant
                n == name@.len(),
                k <= n,
                path_file_name(self@) == Some(name@),
                last_dot(name@) == last_dot(name@.take(k as int)),
            decreases k,
        {
            proof {
                assert(name@.take(k as int).drop_last() =~= name@.take(k - 1));
                assert(name@.take(k as int).last() == name@[k - 1]);
            }
            if name[k - 1] == DOT {
                assert(name@.take(k as int).len() == k);
                assert(last_dot(name@.take(k as int)) == k - 1);
                assert(path_file_name(self@) == Some(name@));
                if k - 1 == 0 {
                    return None;
                }
                let extension = vstd::slice::slice_subrange(name, k, n);
                assert(extension@ =~= name@.skip(k as int));
                return Some(extension);
            }
            k -= 1;
        }
        None
    }

    /// What is left of this path below `base`: see [`path_strip_prefix`].
    pub fn strip_prefix(&self, base: &Path) -> (r: Option<Path>)
        ensures
            option_model(r) == path_strip_prefix(self@, base@),
    {
        if self.starts_with(base) {
            Some(self.parts_from(base.parts.len()))
        } else {
            None
        }
    }

    /// Whether this path lies at or below `base`.
    pub fn starts_with(&self, base: &Path) -> (r: bool)
        ensures
            r == base@.is_prefix_of(self@),
    {
        if base.parts.len() > self.parts.len() {
            return false;
        }
        let mut i: usize = 0;
        while i < base.parts.len()
            invariant
                base.parts@.len() <= self.parts@.len(),
                base@.len() == base.parts@.len(),
                self@.len() == self.parts@.len(),
                i <= base.parts@.len(),
                forall|j: int| 0 <= j < i ==> self@[j] == base@[j],
            decreases base.parts@.len() - i,
        {
            if !bytes_eq(self.parts[i].as_slice(), base.parts[i].as_slice()) {
                assert(self@.subrange(0, base@.len() as int)[i as int] != base@[i as int]);
                return false;
            }
            i += 1;
        }
        assert(self@.subrange(0, base@.len() as int) =~= base@);
        true
    }

    /// How many components the two paths share, counted from the back.
    pub fn shared_suffix(&self, other: &Path) -> (r: usize)
        ensures
            r == common_suffix_len(self@, other@),
            r <= self@.len(),
            r <= other@.len(),
    {
        let n = self.parts.len();
        let m = other.parts.len();
        let mut k: usize = 0;
        proof {
            assert(self@.take(n as int) =~= self@);
            assert(other@.take(m as int) =~= other@);
        }
        while k < n && k < m
            invariant
                n == self@.len(),
                m == other@.len(),
                n == self.parts@.len(),
                m == other.parts@.len(),
                k <= n,
                k <= m,
                common_suffix_len(self@, other@) == k + common_suffix_len(
                    self@.take(n - k),
                    other@.take(m - k),
                ),
            decreases n - k,
        {
            proof {
                assert(self@.take(n - k).drop_last() =~= self@.take(n - k - 1));
                assert(other@.take(m - k).drop_last() =~= other@.take(m - k - 1));
                assert(self@.take(n - k).last() == self@[n - k - 1]);
                assert(other@.take(m - k).last() == other@[m - k - 1]);
            }
            if !bytes_eq(self.parts[n - 1 - k].as_slice(), other.parts[m - 1 - k].as_slice()) {
                return k;
            }
            k += 1;
        }
        k
    }

    /// How many components the two paths share, counted from the front.
    pub fn shared_prefix(&self, other: &Path) -> (r: usize)
        ensures
            r == common_prefix_len(self@, other@),
            r <= self@.len(),
            r <= other@.len(),
    {
        let n = self.parts.len();
        let m = other.parts.len();
        let mut k: usize = 0;
        proof {
            assert(self@.skip(0) =~= self@);
            assert(other@.skip(0) =~= other@);
        }
        while k < n && k < m
            invariant
                n == self@.len(),
                m == other@.len(),
                n == self.parts@.len(),
                m == other.parts@.len(),
                k <= n,
                k <= m,
                common_prefix_len(self@, other@) == k + common_prefix_len(
                    self@.skip(k as int),
                    other@.skip(k as int),
                ),
            decreases n - k,
        {
            proof {
                assert(self@.skip(k as int).skip(1) =~= self@.skip(k + 1));
                assert(other@.skip(k as int).skip(1) =~= other@.skip(k + 1));
            }
            if !bytes_eq(self.parts[k].as_slice(), other.parts[k].as_slice()) {
                return k;
            }
            k += 1;
        }
        k
    }

    /// What stands before `suffix` in this path: see [`remove_common_suffix`].
    /// Nothing is left, and nothing is given, where `suffix` has as many
    /// components as this path or more.
    pub fn remove_common_suffix(&self, suffix: &Path) -> (r: Option<Path>)
        ensures
            option_model(r) == remove_common_suffix(self@, suffix@),
            suffix@.len() >= self@.len() ==> r is None,
    {
        let n = self.parts.len();
        let m = suffix.parts.len();
        let k = self.shared_suffix(suffix);
        proof {
            lemma_common_suffix(self@, suffix@);
        }
        if k == m && m < n {
            Some(self.first_parts(n - m))
        } else {
            None
        }
    }
}

/// The shared components at the back are all of `b` exactly when `a` ends in `b`.
pub proof fn lemma_common_suffix(a: PathModel, b: PathModel)
    ensures
        common_suffix_len(a, b) <= a.len(),
        common_suffix_len(a, b) <= b.len(),
        (common_suffix_len(a, b) == b.len() && b.len() <= a.len()) <==> b.is_suffix_of(a),
    decreases a.len(),
{
    if a.len() > 0 && b.len() > 0 && a.last() == b.last() {
        lemma_common_suffix(a.drop_last(), b.drop_last());
        let a1 = a.drop_last();
        let b1 = b.drop_last();
        if b1.is_suffix_of(a1) {
            assert(a.subrange(a.len() - b.len(), a.len() as int) =~= b) by {
                assert(a1.subrange(a1.len() - b1.len(), a1.len() as int) == b1);
                assert forall|i: int| 0 <= i < b.len() implies a.subrange(
                    a.len() - b.len(),
                    a.len() as int,
                )[i] == b[i] by {
                    if i < b1.len() {
                        assert(a1.subrange(a1.len() - b1.len(), a1.len() as int)[i] == b1[i]);
                    }
                }
            }
        }
        if b.is_suffix_of(a) {
            assert(a1.subrange(a1.len() - b1.len(), a1.len() as int) =~= b1) by {
                assert forall|i: int| 0 <= i < b1.len() implies a1.subrange(
                    a1.len() - b1.len(),
                    a1.len() as int,
                )[i] == b1[i] by {
                    assert(a.subrange(a.len() - b.len(), a.len() as int)[i] == b[i]);
                }
            }
        }
    } else if b.len() == 0 {
        assert(a.subrange(a.len() as int, a.len() as int) =~= b);
    } else if a.len() > 0 {
        if b.is_suffix_of(a) {
            assert(a.subrange(a.len() - b.len(), a.len() as int)[b.len() - 1] == b[b.len() - 1]);
        }
    }
}

/// What the parts of a written path spell is well formed, wherever it goes
/// in a path but at the front.
pub proof fn lemma_parse_parts_wf(s: Seq<u8>, leading: bool)
    ensures
        forall|i: int|
            0 <= i < parse_parts(s, leading).len() ==> part_wf(
                #[trigger] parse_parts(s, leading)[i],
                leading && i == 0,
            ),
    decreases s.len(),
{
    let k = first_separator(s);
    lemma_first_separator_is_first(s);
    let part = s.take(k);
    let here = if part.len() == 0 || (part == cur_part() && !leading) {
        Seq::<Seq<u8>>::empty()
    } else {
        seq![part]
    };
    assert(!part.contains(SEPARATOR)) by {
        if part.contains(SEPARATOR) {
            let at = part.index_of(SEPARATOR);
            assert(s[at] == SEPARATOR);
        }
    }
    assert(part != root_part()) by {
        if part == root_part() {
            assert(part[0] == SEPARATOR);
        }
    }
    if 0 <= k < s.len() {
        lemma_parse_parts_wf(s.skip(k + 1), false);
        let rest = parse_parts(s.skip(k + 1), false);
        let all = parse_parts(s, leading);
        assert(all == here + rest);
        assert forall|i: int| 0 <= i < all.len() implies part_wf(
            #[trigger] all[i],
            leading && i == 0,
        ) by {
            if i < here.len() {
                assert(all[i] == part);
            } else {
                assert(all[i] == rest[i - here.len()]);
                assert(part_wf(rest[i - here.len()], false));
            }
        }
    }
}

/// No separator stands before the first one.
pub proof fn lemma_first_separator_is_first(s: Seq<u8>)
    ensures
        0 <= first_separator(s) <= s.len(),
        forall|j: int| 0 <= j < first_separator(s) ==> s[j] != SEPARATOR,
        first_separator(s) < s.len() ==> s[first_separator(s)] == SEPARATOR,
    decreases s.len(),
{
    if s.len() > 0 && s[0] != SEPARATOR {
        lemma_first_separator_is_first(s.skip(1));
        assert forall|j: int| 0 <= j < first_separator(s) implies s[j] != SEPARATOR by {
            if j > 0 {
                assert(s.skip(1)[j - 1] == s[j]);
            }
        }
    }
}

/// Every written path spells a well-formed sequence of components.
pub proof fn lemma_parse_path_wf(s: Seq<u8>)
    ensures
        path_wf(parse_path(s)),
{
    let all = parse_path(s);
    if s.len() > 0 && s[0] == SEPARATOR {
        lemma_parse_parts_wf(s.skip(1), false);
        let rest = parse_parts(s.skip(1), false);
        assert forall|i: int| 0 <= i < all.len() implies part_wf(#[trigger] all[i], i == 0) by {
            if i == 0 {
                assert(all[0] == root_part());
                assert(root_part().len() == 1);
                assert(root_part() != cur_part()) by {
                    assert(root_part()[0] != cur_part()[0]);
                }
            } else {
                assert(all[i] == rest[i - 1]);
                assert(part_wf(rest[i - 1], false));
            }
        }
    } else {
        lemma_parse_parts_wf(s, true);
    }
}

/// What is written between the components before the last of `m` and the
/// last: a separator, but none at the start and none after the root.
pub open spec fn joint(m: PathModel) -> Seq<u8> {
    if m.len() <= 1 || (m.len() == 2 && m[0] == root_part()) {
        Seq::empty()
    } else {
        seq![SEPARATOR]
    }
}

/// The written form of a path: its components with separators between them.
pub open spec fn written(m: PathModel) -> Seq<u8>
    decreases m.len(),
{
    if m.len() == 0 {
        Seq::empty()
    } else {
        written(m.drop_last()) + joint(m) + m.last()
    }
}

/// Writing a separator and a name after what spells some components spells
/// the same components and the name.
pub proof fn lemma_parse_parts_append(s: Seq<u8>, leading: bool, name: Seq<u8>)
    requires
        part_wf(name, false),
    ensures
        parse_parts(s + seq![SEPARATOR] + name, leading) == parse_parts(s, leading).push(name),
    decreases s.len(),
{
    let all = s + seq![SEPARATOR] + name;
    let k = first_separator(s);
    lemma_first_separator_is_first(s);
    assert(name != root_part() && name != cur_part());
    assert(!name.contains(SEPARATOR));
    assert forall|j: int| 0 <= j < k implies all[j] != SEPARATOR by {
        assert(all[j] == s[j]);
    }
    if k < s.len() {
        assert(all[k] == s[k]);
    } else {
        assert(all[k] == SEPARATOR);
    }
    lemma_first_separator(all, k);
    assert(all.take(k) =~= s.take(k));
    if k < s.len() {
        assert(all.skip(k + 1) =~= s.skip(k + 1) + seq![SEPARATOR] + name);
        lemma_parse_parts_append(s.skip(k + 1), false, name);
        let here = if s.take(k).len() == 0 || (s.take(k) == cur_part() && !leading) {
            Seq::<Seq<u8>>::empty()
        } else {
            seq![s.take(k)]
        };
        assert(here + parse_parts(s.skip(k + 1), false).push(name) =~= (here + parse_parts(
            s.skip(k + 1),
            false,
        )).push(name));
    } else {
        assert(all.skip(k + 1) =~= name);
        assert forall|j: int| 0 <= j < name.len() implies name[j] != SEPARATOR by {
            if name[j] == SEPARATOR {
                assert(name.contains(SEPARATOR));
            }
        }
        lemma_first_separator(name, name.len() as int);
        assert(name.take(name.len() as int) =~= name);
        assert(parse_parts(name, false) =~= seq![name]);
        let here = if s.take(k).len() == 0 || (s.take(k) == cur_part() && !leading) {
            Seq::<Seq<u8>>::empty()
        } else {
            seq![s.take(k)]
        };
        assert(parse_parts(s, leading) == here);
        assert(here + seq![name] =~= here.push(name));
    }
}

/// Reading what was written gives the path back.
pub proof fn lemma_written_parses(m: PathModel)
    requires
        path_wf(m),
    ensures
        parse_path(written(m)) == m,
    decreases m.len(),
{
    if m.len() == 0 {
        assert(parse_path(written(m)) =~= m);
    } else if m.len() == 1 {
        let part = m[0];
        assert(m.drop_last() =~= PathModel::empty());
        assert(written(m.drop_last()) =~= Seq::<u8>::empty());
        assert(written(m) =~= part);
        assert(part_wf(part, true));
        if part == root_part() {
            assert(part[0] == SEPARATOR);
            assert(part.skip(1) =~= Seq::<u8>::empty());
            assert(parse_parts(Seq::<u8>::empty(), false) =~= PathModel::empty());
            assert(parse_path(part) =~= m);
        } else {
            assert(!part.contains(SEPARATOR));
            assert(part[0] != SEPARATOR) by {
                if part[0] == SEPARATOR {
                    assert(part.contains(SEPARATOR));
                }
            }
            assert forall|j: int| 0 <= j < part.len() implies part[j] != SEPARATOR by {
                if part[j] == SEPARATOR {
                    assert(part.contains(SEPARATOR));
                }
            }
            lemma_first_separator(part, part.len() as int);
            assert(part.take(part.len() as int) =~= part);
            assert(parse_parts(part, true) =~= seq![part]);
            assert(parse_path(part) =~= m);
        }
    } else {
        let before = m.drop_last();
        let name = m.last();
        assert(path_wf(before)) by {
            assert forall|i: int| 0 <= i < before.len() implies part_wf(
                #[trigger] before[i],
                i == 0,
            ) by {
                assert(before[i] == m[i]);
            }
        }
        lemma_written_parses(before);
        assert(part_wf(name, false));
        assert(part_wf(m[0], true));
        let text = written(before);
        if m.len() == 2 && m[0] == root_part() {
            assert(before =~= seq![root_part()]);
            assert(before.drop_last() =~= PathModel::empty());
            assert(written(before.drop_last()) =~= Seq::<u8>::empty());
            assert(text =~= root_part());
            assert(written(m) =~= root_part() + name);
            assert(written(m)[0] == SEPARATOR);
            assert(written(m).skip(1) =~= name);
            assert(!name.contains(SEPARATOR));
            assert forall|j: int| 0 <= j < name.len() implies name[j] != SEPARATOR by {
                if name[j] == SEPARATOR {
                    assert(name.contains(SEPARATOR));
                }
            }
            lemma_first_separator(name, name.len() as int);
            assert(name.take(name.len() as int) =~= name);
            assert(parse_parts(name, false) =~= seq![name]);
            assert(parse_path(written(m)) =~= m);
        } else {
            assert(written(m) =~= text + seq![SEPARATOR] + name);
            lemma_written_front(before);
            if text.len() > 0 && text[0] == SEPARATOR {
                assert((text + seq![SEPARATOR] + name)[0] == SEPARATOR);
                assert((text + seq![SEPARATOR] + name).skip(1) =~= text.skip(1) + seq![SEPARATOR]
                    + name);
                lemma_parse_parts_append(text.skip(1), false, name);
                assert(parse_path(written(m)) =~= parse_path(text).push(name));
            } else {
                assert(text.len() > 0);
                assert((text + seq![SEPARATOR] + name)[0] == text[0]);
                lemma_parse_parts_append(text, true, name);
            }
            assert(before.push(name) =~= m);
        }
    }
}

/// What a path that is not empty is written as is not empty, and starts
/// with a separator exactly where the path starts at the root.
pub proof fn lemma_written_front(m: PathModel)
    requires
        path_wf(m),
        m.len() > 0,
    ensures
        written(m).len() > 0,
        written(m)[0] == m[0][0],
        (written(m)[0] == SEPARATOR) == is_rooted(m),
    decreases m.len(),
{
    assert(part_wf(m[0], true));
    if m.len() == 1 {
        assert(m.drop_last() =~= PathModel::empty());
        assert(written(m.drop_last()) =~= Seq::<u8>::empty());
        assert(written(m) =~= m[0]);
    } else {
        let before = m.drop_last();
        assert(path_wf(before)) by {
            assert forall|i: int| 0 <= i < before.len() implies part_wf(
                #[trigger] before[i],
                i == 0,
            ) by {
                assert(before[i] == m[i]);
            }
        }
        lemma_written_front(before);
        assert(before[0] == m[0]);
        assert(written(m)[0] == written(before)[0]);
    }
    if m[0] != root_part() {
        assert(!m[0].contains(SEPARATOR));
        if m[0][0] == SEPARATOR {
            assert(m[0].contains(SEPARATOR));
        }
    } else {
        assert(m[0][0] == SEPARATOR);
    }
}

impl Path {
    /// The written form of the path: see [`written`]. Read again, it gives
    /// this path.
    pub fn to_bytes(&self) -> (r: Vec<u8>)
        ensures
            r@ == written(self@),
            parse_path(r@) == self@,
    {
        proof {
            use_type_invariant(self);
            lemma_written_parses(self@);
        }
        let n = self.parts.len();
        let mut out: Vec<u8> = Vec::new();
        let mut i: usize = 0;
        assert(self@.take(0) =~= PathModel::empty());
        while i < n
            invariant
                n == self.parts@.len(),
                n == self@.len(),
                i <= n,
                out@ == written(self@.take(i as int)),
            decreases n - i,
        {
            let ghost upto = self@.take(i + 1);
            proof {
                assert(upto.drop_last() =~= self@.take(i as int));
                assert(upto.last() == self@[i as int]);
                if i >= 1 {
                    assert(upto[0] == self@[0]);
                }
            }
            let after_root = i == 1 && rank_of(self.parts[0].as_slice()) == 0;
            if i > 0 && !after_root {
                out.push(SEPARATOR);
            }
            let ghost with_joint = out@;
            assert(with_joint =~= written(self@.take(i as int)) + joint(upto));
            let part = &self.parts[i];
            let mut k: usize = 0;
            while k < part.len()
                invariant
                    k <= part@.len(),
                    out@ == with_joint + part@.take(k as int),
                decreases part@.len() - k,
            {
                out.push(part[k]);
                assert(out@ =~= with_joint + part@.take(k + 1));
                k += 1;
            }
            assert(part@.take(part@.len() as int) =~= part@);
            assert(part@ == self@[i as int]);
            i += 1;
        }
        assert(self@.take(n as int) =~= self@);
        out
    }
}

} // verus!
