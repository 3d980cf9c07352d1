//! Paths as sequences of components, and the order in which manifests list them.
//!
//! A [`SyncPath`] holds the components that a platform path has once repeated
//! separators and inner `.` parts are gone. Two paths are the same, and one comes
//! before the other, exactly as their components say.

use vstd::prelude::*;
use vstd::slice::slice_to_vec;

verus! {

/// One component of a path.
#[derive(Debug, PartialEq, Eq, Hash)]
pub enum PathComponent {
    /// The root directory, which makes a path absolute.
    RootDir,
    /// A leading `.` part.
    CurDir,
    /// A `..` part.
    ParentDir,
    /// A name, as the bytes that the platform stores.
    Normal(Vec<u8>),
}

/// What a component says.
pub enum Name {
    RootDir,
    CurDir,
    ParentDir,
    Normal(Seq<u8>),
}

impl View for PathComponent {
    type V = Name;

    open spec fn view(&self) -> Name {
        match self {
            PathComponent::RootDir => Name::RootDir,
            PathComponent::CurDir => Name::CurDir,
            PathComponent::ParentDir => Name::ParentDir,
            PathComponent::Normal(bytes) => Name::Normal(bytes@),
        }
    }
}

impl Clone for PathComponent {
    fn clone(&self) -> (component: Self)
        ensures
            component@ == self@,
    {
        match self {
            PathComponent::RootDir => PathComponent::RootDir,
            PathComponent::CurDir => PathComponent::CurDir,
            PathComponent::ParentDir => PathComponent::ParentDir,
            PathComponent::Normal(bytes) => PathComponent::Normal(slice_to_vec(bytes.as_slice())),
        }
    }
}

/// A path.
#[derive(Debug, PartialEq, Eq, Hash)]
pub struct SyncPath {
    pub components: Vec<PathComponent>,
}

/// What the components say, in their order.
pub open spec fn names(components: Seq<PathComponent>) -> Seq<Name> {
    components.map_values(|component: PathComponent| component@)
}

impl View for SyncPath {
    type V = Seq<Name>;

    open spec fn view(&self) -> Seq<Name> {
        names(self.components@)
    }
}

/// How one thing stands to another in an order.
#[derive(Debug, Clone, Copy, PartialEq, Eq, Structural)]
pub enum Relation {
    Before,
    Same,
    After,
}

/// Whether `less` orders all values strictly: nothing comes before itself, what
/// comes before is passed on, and of two different values one comes first.
pub open spec fn orders_strictly<T>(less: spec_fn(T, T) -> bool) -> bool {
    &&& forall|x: T| !#[trigger] less(x, x)
    &&& forall|x: T, y: T, z: T| #[trigger] less(x, y) && #[trigger] less(y, z) ==> less(x, z)
    &&& forall|x: T, y: T| #[trigger] less(x, y) || x == y || less(y, x)
}

/// Whether `left` comes before `right` in the order that looks at the first place
/// where they differ, and puts a prefix first.
pub open spec fn lex_before<T>(less: spec_fn(T, T) -> bool, left: Seq<T>, right: Seq<T>) -> bool
    decreases left.len(),
{
    if right.len() == 0 {
        false
    } else if left.len() == 0 {
        true
    } else if left[0] == right[0] {
        lex_before(less, left.drop_first(), right.drop_first())
    } else {
        less(left[0], right[0])
    }
}

proof fn lemma_lex_irreflexive<T>(less: spec_fn(T, T) -> bool, value: Seq<T>)
    ensures
        !lex_before(less, value, value),
    decreases value.len(),
{
    if value.len() > 0 {
        lemma_lex_irreflexive(less, value.drop_first());
    }
}

proof fn lemma_lex_total<T>(less: spec_fn(T, T) -> bool, left: Seq<T>, right: Seq<T>)
    requires
        orders_strictly(less),
    ensures
        lex_before(less, left, right) || left == right || lex_before(less, right, left),
    decreases left.len(),
{
    if left.len() == 0 || right.len() == 0 {
        if left.len() == 0 && right.len() == 0 {
            assert(left =~= right);
        }
    } else if left[0] == right[0] {
        lemma_lex_total(less, left.drop_first(), right.drop_first());
        if left.drop_first() == right.drop_first() {
            assert(left =~= seq![left[0]] + left.drop_first());
            assert(right =~= seq![right[0]] + right.drop_first());
        }
    } else {
        assert(less(left[0], right[0]) || less(right[0], left[0]));
    }
}

proof fn lemma_lex_transitive<T>(
    less: spec_fn(T, T) -> bool,
    first: Seq<T>,
    second: Seq<T>,
    third: Seq<T>,
)
    requires
        orders_strictly(less),
        lex_before(less, first, second),
        lex_before(less, second, third),
    ensures
        lex_before(less, first, third),
    decreases first.len(),
{
    if first.len() > 0 {
        if first[0] == second[0] && second[0] == third[0] {
            lemma_lex_transitive(
                less,
                first.drop_first(),
                second.drop_first(),
                third.drop_first(),
            );
        } else if first[0] != second[0] && second[0] != third[0] {
            assert(less(first[0], second[0]) && less(second[0], third[0]));
        }
    }
}

/// The order of bytes.
pub open spec fn byte_order() -> spec_fn(u8, u8) -> bool {
    |x: u8, y: u8| x < y
}

/// Where the kind of a component stands among the kinds.
pub open spec fn kind_rank(name: Name) -> int {
    match name {
        Name::RootDir => 0,
        Name::CurDir => 1,
        Name::ParentDir => 2,
        Name::Normal(_) => 3,
    }
}

/// Whether one component comes before another: by kind, and names by their bytes.
pub open spec fn name_before(left: Name, right: Name) -> bool {
    match (left, right) {
        (Name::Normal(x), Name::Normal(y)) => lex_before(byte_order(), x, y),
        _ => kind_rank(left) < kind_rank(right),
    }
}

/// The order of components.
pub open spec fn name_order() -> spec_fn(Name, Name) -> bool {
    |x: Name, y: Name| name_before(x, y)
}

/// Whether one path comes before another.
pub open spec fn path_before(left: Seq<Name>, right: Seq<Name>) -> bool {
    lex_before(name_order(), left, right)
}

proof fn lemma_names_ordered()
    ensures
        orders_strictly(name_order()),
{
    let less = name_order();
    assert(orders_strictly(byte_order()));
    assert forall|x: Name| !#[trigger] less(x, x) by {
        if let Name::Normal(bytes) = x {
            lemma_lex_irreflexive(byte_order(), bytes);
        }
    }
    assert forall|x: Name, y: Name, z: Name| #[trigger] less(x, y) && #[trigger] less(
        y,
        z,
    ) implies less(x, z) by {
        match (x, y, z) {
            (Name::Normal(a), Name::Normal(b), Name::Normal(c)) => {
                lemma_lex_transitive(byte_order(), a, b, c);
            },
            _ => {},
        }
    }
    assert forall|x: Name, y: Name| #[trigger] less(x, y) || x == y || less(y, x) by {
        match (x, y) {
            (Name::Normal(a), Name::Normal(b)) => {
                lemma_lex_total(byte_order(), a, b);
            },
            _ => {},
        }
    }
}

/// No path comes before itself.
pub proof fn lemma_path_before_irreflexive(path: Seq<Name>)
    ensures
        !path_before(path, path),
{
    lemma_lex_irreflexive(name_order(), path);
}

/// A path before a second one comes before everything after that one.
pub proof fn lemma_path_before_transitive(first: Seq<Name>, second: Seq<Name>, third: Seq<Name>)
    requires
        path_before(first, second),
        path_before(second, third),
    ensures
        path_before(first, third),
{
    lemma_names_ordered();
    lemma_lex_transitive(name_order(), first, second, third);
}

/// Of two different paths exactly one comes before the other.
pub proof fn lemma_path_before_total(left: Seq<Name>, right: Seq<Name>)
    ensures
        path_before(left, right) || left == right || path_before(right, left),
        !(path_before(left, right) && path_before(right, left)),
        left == right ==> !path_before(left, right),
{
    lemma_names_ordered();
    lemma_lex_total(name_order(), left, right);
    lemma_lex_irreflexive(name_order(), left);
    if path_before(left, right) && path_before(right, left) {
        lemma_lex_transitive(name_order(), left, right, left);
    }
}

/// How `left` stands to `right` when `before` tells which comes first.
pub open spec fn relation_of(before: bool, after: bool) -> Relation {
    if before {
        Relation::Before
    } else if after {
        Relation::After
    } else {
        Relation::Same
    }
}

/// How one string of bytes stands to another.
pub fn relate_bytes(left: &[u8], right: &[u8]) -> (relation: Relation)
    ensures
        relation == relation_of(
            lex_before(byte_order(), left@, right@),
            lex_before(byte_order(), right@, left@),
        ),
        relation == Relation::Same <==> left@ == right@,
{
    let ghost less = byte_order();
    let mut index: usize = 0;
    proof {
        assert(left@.skip(0) =~= left@);
        assert(right@.skip(0) =~= right@);
        lemma_lex_total(less, left@, right@);
        lemma_lex_irreflexive(less, left@);
    }
    while index < left.len() && index < right.len()
        invariant
            less == byte_order(),
            index <= left@.len(),
            index <= right@.len(),
            lex_before(less, left@, right@) == lex_before(
                less,
                left@.skip(index as int),
                right@.skip(index as int),
            ),
            lex_before(less, right@, left@) == lex_before(
                less,
                right@.skip(index as int),
                left@.skip(index as int),
            ),
            left@ == right@ ==> left@.skip(index as int) == right@.skip(index as int),
            lex_before(less, left@, right@) || left@ == right@ || lex_before(less, right@, left@),
            left@ == right@ ==> !lex_before(less, left@, right@),
        decreases left.len() - index,
    {
        assert(left@.skip(index as int).drop_first() =~= left@.skip(index + 1));
        assert(right@.skip(index as int).drop_first() =~= right@.skip(index + 1));
        if left[index] < right[index] {
            return Relation::Before;
        }
        if left[index] > right[index] {
            return Relation::After;
        }
        index = index + 1;
    }
    if index < right.len() {
        Relation::Before
    } else if index < left.len() {
        Relation::After
    } else {
        Relation::Same
    }
}

impl PathComponent {
    fn rank(&self) -> (rank: u8)
        ensures
            rank == kind_rank(self@),
    {
        match self {
            PathComponent::RootDir => 0,
            PathComponent::CurDir => 1,
            PathComponent::ParentDir => 2,
            PathComponent::Normal(_) => 3,
        }
    }

    /// How this component stands to `other`.
    pub fn relate(&self, other: &PathComponent) -> (relation: Relation)
        ensures
            relation == relation_of(name_before(self@, other@), name_before(other@, self@)),
            relation == Relation::Same <==> self@ == other@,
    {
        proof {
            lemma_names_ordered();
            let less = name_order();
            assert(less(self@, other@) || self@ == other@ || less(other@, self@));
            assert(!less(self@, self@));
        }
        match (self, other) {
            (PathComponent::Normal(left), PathComponent::Normal(right)) => relate_bytes(
                left.as_slice(),
                right.as_slice(),
            ),
            _ => {
                let left: u8 = self.rank();
                let right: u8 = other.rank();
                if left < right {
                    Relation::Before
                } else if right < left {
                    Relation::After
                } else {
                    Relation::Same
                }
            },
        }
    }
}

impl Clone for SyncPath {
    fn clone(&self) -> (path: Self)
        ensures
            path@ == self@,
    {
        SyncPath { components: copy_components(&self.components, 0) }
    }
}

/// Copies the components from `from` on.
fn copy_components(components: &Vec<PathComponent>, from: usize) -> (copies: Vec<PathComponent>)
    requires
        from <= components@.len(),
    ensures
        names(copies@) == names(components@).skip(from as int),
{
    let mut copies: Vec<PathComponent> = Vec::new();
    let mut index: usize = from;
    while index < components.len()
        invariant
            from <= index <= components@.len(),
            names(copies@) == names(components@).subrange(from as int, index as int),
        decreases components.len() - index,
    {
        let ghost earlier = copies@;
        copies.push(components[index].clone());
        assert(names(copies@) =~= names(earlier).push(components@[index as int]@));
        assert(names(components@).subrange(from as int, index as int).push(
            names(components@)[index as int],
        ) =~= names(components@).subrange(from as int, index + 1));
        index = index + 1;
    }
    assert(names(components@).subrange(from as int, index as int) =~= names(components@).skip(
        from as int,
    ));
    copies
}

/// Whether a path starts at the root directory.
pub open spec fn is_absolute_path(path: Seq<Name>) -> bool {
    path.len() > 0 && path[0] == Name::RootDir
}

/// Whether a path holds a `..` part.
pub open spec fn climbs(path: Seq<Name>) -> bool {
    exists|i: int| 0 <= i < path.len() && #[trigger] path[i] == Name::ParentDir
}

/// The path that `relative` names when it is taken from `base`. An absolute path
/// stands for itself, and a leading `.` part adds nothing.
pub open spec fn joined(base: Seq<Name>, relative: Seq<Name>) -> Seq<Name> {
    if is_absolute_path(relative) {
        relative
    } else if base.len() > 0 && relative.len() > 0 && relative[0] == Name::CurDir {
        base + relative.skip(1)
    } else {
        base + relative
    }
}

/// The name at the end of a path, if it ends in one.
pub open spec fn leaf_of(path: Seq<Name>) -> Option<Seq<u8>> {
    if path.len() == 0 {
        None
    } else {
        match path.last() {
            Name::Normal(bytes) => Some(bytes),
            _ => None,
        }
    }
}

/// Whether `prefix` is where `path` begins.
pub open spec fn begins_with(path: Seq<Name>, prefix: Seq<Name>) -> bool {
    prefix.len() <= path.len() && path.take(prefix.len() as int) == prefix
}

impl SyncPath {
    /// The path with the given components.
    pub fn new(components: Vec<PathComponent>) -> (path: Self)
        ensures
            path@ == names(components@),
    {
        SyncPath { components }
    }

    /// Whether the path starts at the root directory.
    pub fn is_absolute(&self) -> (absolute: bool)
        ensures
            absolute == is_absolute_path(self@),
    {
        if self.components.len() == 0 {
            return false;
        }
        assert(self@[0] == self.components@[0]@);
        match &self.components[0] {
            PathComponent::RootDir => true,
            _ => false,
        }
    }

    /// Whether some component is a `..` part.
    pub fn has_parent_component(&self) -> (found: bool)
        ensures
            found == climbs(self@),
    {
        let mut index: usize = 0;
        while index < self.components.len()
            invariant
                index <= self.components@.len(),
                forall|i: int| 0 <= i < index ==> #[trigger] self@[i] != Name::ParentDir,
            decreases self.components.len() - index,
        {
            assert(self@[index as int] == self.components@[index as int]@);
            match &self.components[index] {
                PathComponent::ParentDir => {
                    return true;
                },
                _ => {},
            }
            index = index + 1;
        }
        false
    }

    /// The path that `relative` names when it is taken from this one.
    pub fn join(&self, relative: &SyncPath) -> (path: SyncPath)
        ensures
            path@ == joined(self@, relative@),
    {
        if relative.is_absolute() {
            return relative.clone();
        }
        let mut from: usize = 0;
        if self.components.len() > 0 && relative.components.len() > 0 {
            assert(relative@[0] == relative.components@[0]@);
            match &relative.components[0] {
                PathComponent::CurDir => {
                    from = 1;
                },
                _ => {},
            }
        }
        let mut components = copy_components(&self.components, 0);
        let mut rest = copy_components(&relative.components, from);
        let ghost (head, tail) = (components@, rest@);
        components.append(&mut rest);
        assert(names(components@) =~= names(head) + names(tail));
        assert(self@.skip(0) =~= self@);
        assert(relative@.skip(0) =~= relative@);
        SyncPath { components }
    }

    /// The name at the end of the path, if it ends in one.
    pub fn file_name(&self) -> (name: Option<Vec<u8>>)
        ensures
            match leaf_of(self@) {
                Some(bytes) => name matches Some(found) && found@ == bytes,
                None => name is None,
            },
    {
        let len: usize = self.components.len();
        if len == 0 {
            return None;
        }
        assert(self@.last() == self.components@.last()@);
        match &self.components[len - 1] {
            PathComponent::Normal(bytes) => Some(slice_to_vec(bytes.as_slice())),
            _ => None,
        }
    }

    /// What is left of the path behind `prefix`, if it begins with it.
    pub fn strip_prefix(&self, prefix: &SyncPath) -> (rest: Option<SyncPath>)
        ensures
            if begins_with(self@, prefix@) {
                rest matches Some(path) && path@ == self@.skip(prefix@.len() as int)
            } else {
                rest is None
            },
    {
        if prefix.components.len() > self.components.len() {
            return None;
        }
        let len: usize = prefix.components.len();
        let mut index: usize = 0;
        while index < len
            invariant
                index <= len,
                len == prefix.components@.len(),
                len <= self.components@.len(),
                forall|i: int| 0 <= i < index ==> self@[i] == #[trigger] prefix@[i],
            decreases len - index,
        {
            assert(self@[index as int] == self.components@[index as int]@);
            assert(prefix@[index as int] == prefix.components@[index as int]@);
            if self.components[index].relate(&prefix.components[index]) != Relation::Same {
                assert(self@.take(len as int)[index as int] != prefix@[index as int]);
                return None;
            }
            index = index + 1;
        }
        assert(self@.take(len as int) =~= prefix@);
        Some(SyncPath { components: copy_components(&self.components, len) })
    }

    /// How this path stands to `other` in the order of manifests.
    pub fn relate(&self, other: &SyncPath) -> (relation: Relation)
        ensures
            relation == relation_of(path_before(self@, other@), path_before(other@, self@)),
            relation == Relation::Same <==> self@ == other@,
    {
        let ghost less = name_order();
        let mut index: usize = 0;
        proof {
            assert(self@.skip(0) =~= self@);
            assert(other@.skip(0) =~= other@);
            lemma_path_before_total(self@, other@);
        }
        while index < self.components.len() && index < other.components.len()
            invariant
                less == name_order(),
                index <= self@.len(),
                index <= other@.len(),
                path_before(self@, other@) == lex_before(
                    less,
                    self@.skip(index as int),
                    other@.skip(index as int),
                ),
                path_before(other@, self@) == lex_before(
                    less,
                    other@.skip(index as int),
                    self@.skip(index as int),
                ),
                self@ == other@ ==> self@.skip(index as int) == other@.skip(index as int),
                path_before(self@, other@) || self@ == other@ || path_before(other@, self@),
                !(path_before(self@, other@) && path_before(other@, self@)),
                self@ == other@ ==> !path_before(self@, other@),
            decreases self.components.len() - index,
        {
            assert(self@.skip(index as int).drop_first() =~= self@.skip(index + 1));
            assert(other@.skip(index as int).drop_first() =~= other@.skip(index + 1));
            assert(self@.skip(index as int)[0] == self.components@[index as int]@);
            assert(other@.skip(index as int)[0] == other.components@[index as int]@);
            match self.components[index].relate(&other.components[index]) {
                Relation::Before => {
                    return Relation::Before;
                },
                Relation::After => {
                    return Relation::After;
                },
                Relation::Same => {},
            }
            index = index + 1;
        }
        if index < other.components.len() {
            Relation::Before
        } else if index < self.components.len() {
            Relation::After
        } else {
            Relation::Same
        }
    }

    /// Whether this path and `other` have the same components.
    pub fn same_as(&self, other: &SyncPath) -> (same: bool)
        ensures
            same == (self@ == other@),
    {
        match self.relate(other) {
            Relation::Same => true,
            _ => false,
        }
    }
}

/// Whether `k` is the first place where `left` and `right` differ, and `left` comes
/// first there: it ends, or has the lesser item.
pub open spec fn parts_at<T>(
    less: spec_fn(T, T) -> bool,
    left: Seq<T>,
    right: Seq<T>,
    k: int,
) -> bool {
    &&& 0 <= k < right.len()
    &&& k <= left.len()
    &&& left.take(k) == right.take(k)
    &&& k == left.len() || (left[k] != right[k] && less(left[k], right[k]))
}

proof fn lemma_lex_parts<T>(less: spec_fn(T, T) -> bool, left: Seq<T>, right: Seq<T>)
    ensures
        lex_before(less, left, right) <==> exists|k: int| parts_at(less, left, right, k),
    decreases left.len(),
{
    if right.len() == 0 {
    } else if left.len() == 0 {
        assert(left.take(0) =~= right.take(0));
        assert(parts_at(less, left, right, 0));
    } else if left[0] == right[0] {
        let (a, b) = (left.drop_first(), right.drop_first());
        lemma_lex_parts(less, a, b);
        if lex_before(less, a, b) {
            let k = choose|k: int| parts_at(less, a, b, k);
            assert(left.take(k + 1) =~= seq![left[0]] + a.take(k));
            assert(right.take(k + 1) =~= seq![right[0]] + b.take(k));
            assert(parts_at(less, left, right, k + 1));
        }
        if exists|k: int| parts_at(less, left, right, k) {
            let k = choose|k: int| parts_at(less, left, right, k);
            assert(k > 0);
            assert(a.take(k - 1) =~= left.take(k).drop_first());
            assert(b.take(k - 1) =~= right.take(k).drop_first());
            assert(parts_at(less, a, b, k - 1));
        }
    } else {
        if less(left[0], right[0]) {
            assert(left.take(0) =~= right.take(0));
            assert(parts_at(less, left, right, 0));
        }
        if exists|k: int| parts_at(less, left, right, k) {
            let k = choose|k: int| parts_at(less, left, right, k);
            if k > 0 {
                assert(left.take(k)[0] == right.take(k)[0]);
            }
        }
    }
}

/// One path comes before another exactly if, at the first component where they differ,
/// it ends or has the lesser component.
pub proof fn lemma_paths_part_at_one_component(left: Seq<Name>, right: Seq<Name>)
    ensures
        path_before(left, right) <==> exists|k: int| parts_at(name_order(), left, right, k),
{
    lemma_lex_parts(name_order(), left, right);
}

/// Whether `k` is the first byte where `left` and `right` differ, and `left` ends there
/// or has the lesser byte.
pub open spec fn bytes_part_at(left: Seq<u8>, right: Seq<u8>, k: int) -> bool {
    &&& 0 <= k < right.len()
    &&& k <= left.len()
    &&& left.take(k) == right.take(k)
    &&& k == left.len() || left[k] < right[k]
}

/// The root comes before `.`, which comes before `..`, which comes before every name.
/// One name comes before another exactly if, at the first byte where they differ, it
/// ends or has the lesser byte.
pub proof fn lemma_components_are_ordered(left: Name, right: Name)
    ensures
        name_order()(left, right) <==> match (left, right) {
            (Name::RootDir, other) => !(other is RootDir),
            (Name::CurDir, other) => other is ParentDir || other is Normal,
            (Name::ParentDir, other) => other is Normal,
            (Name::Normal(x), Name::Normal(y)) => exists|k: int| bytes_part_at(x, y, k),
            (Name::Normal(_), _) => false,
        },
{
    if let (Name::Normal(x), Name::Normal(y)) = (left, right) {
        lemma_lex_parts(byte_order(), x, y);
        assert forall|k: int| #[trigger] parts_at(byte_order(), x, y, k) <==> bytes_part_at(
            x,
            y,
            k,
        ) by {}
        assert forall|k: int| #[trigger] bytes_part_at(x, y, k) implies parts_at(
            byte_order(),
            x,
            y,
            k,
        ) by {}
    }
}

/// A path that is joined to another, and adds to it, begins with that other path and
/// ends with itself. Taking the other path off again gives it back.
pub proof fn lemma_join_and_strip(base: Seq<Name>, relative: Seq<Name>)
    requires
        !(relative.len() > 0 && relative[0] == Name::RootDir),
        !(relative.len() > 0 && relative[0] == Name::CurDir),
    ensures
        begins_with(joined(base, relative), base),
        joined(base, relative).take(base.len() as int) == base,
        joined(base, relative).skip(base.len() as int) == relative,
        joined(base, relative).len() == base.len() + relative.len(),
{
    assert(joined(base, relative).take(base.len() as int) =~= base);
    assert(joined(base, relative).skip(base.len() as int) =~= relative);
}

/// Joining an absolute path gives that path.
pub proof fn lemma_absolute_paths_stand_alone(base: Seq<Name>, path: Seq<Name>)
    requires
        path.len() > 0,
        path[0] == Name::RootDir,
    ensures
        joined(base, path) == path,
{
}

/// A path ends in a name exactly if its last component is one, and then in that one.
pub proof fn lemma_leaf_is_the_last_name(base: Seq<Name>, last: Name)
    ensures
        leaf_of(Seq::empty()) is None,
        leaf_of(base.push(last)) == match last {
            Name::Normal(bytes) => Some(bytes),
            _ => None,
        },
{
}

/// A path begins with another exactly if it is that other path and something behind it.
pub proof fn lemma_beginnings_are_prefixes(path: Seq<Name>, prefix: Seq<Name>)
    ensures
        begins_with(path, prefix) <==> path == prefix + path.skip(prefix.len() as int)
            && prefix.len() <= path.len(),
        forall|rest: Seq<Name>| begins_with(#[trigger] (prefix + rest), prefix),
{
    if prefix.len() <= path.len() {
        assert(path =~= path.take(prefix.len() as int) + path.skip(prefix.len() as int));
        if path == prefix + path.skip(prefix.len() as int) {
            assert(path.take(prefix.len() as int) =~= prefix);
        }
    }
    assert forall|rest: Seq<Name>| begins_with(#[trigger] (prefix + rest), prefix) by {
        assert((prefix + rest).take(prefix.len() as int) =~= prefix);
    }
}

/// A leading `.` part adds nothing to the path that it is joined to.
pub proof fn lemma_leading_dots_add_nothing(base: Seq<Name>, relative: Seq<Name>)
    requires
        base.len() > 0,
        relative.len() > 0,
        relative[0] == Name::CurDir,
    ensures
        joined(base, relative) == base + relative.drop_first(),
        joined(Seq::empty(), relative) == relative,
{
    assert(relative.skip(1) =~= relative.drop_first());
    assert(Seq::<Name>::empty() + relative =~= relative);
}

} // verus!
